//! The built-in texts of the generated files.

use vstd::prelude::*;

verus! {

/// What stands for the name of the crate in a header.
pub const PLACEHOLDER: &'static str = "{CRATE}";

/// The header of a README where the workspace has none of its own.
pub const DEFAULT_HEADER: &'static str = "# {CRATE}

[![Coverage Status](https://coveralls.io/repos/github/facet-rs/{CRATE}/badge.svg?branch=main)](https://coveralls.io/github/facet-rs/facet?branch=main)
[![crates.io](https://img.shields.io/crates/v/{CRATE}.svg)](https://crates.io/crates/{CRATE})
[![documentation](https://docs.rs/{CRATE}/badge.svg)](https://docs.rs/{CRATE})
[![MIT/Apache-2.0 licensed](https://img.shields.io/crates/l/{CRATE}.svg)](./LICENSE)
[![Discord](https://img.shields.io/discord/1379550208551026748?logo=discord&label=discord)](https://discord.gg/JhD7CwCJ8F)
";

/// The footer of a README where the workspace has none of its own.
pub const DEFAULT_FOOTER: &'static str = "## Sponsors

Thanks to all individual sponsors:

<p> <a href=\"https://github.com/sponsors/fasterthanlime\">
<picture>
<source media=\"(prefers-color-scheme: dark)\" srcset=\"https://github.com/facet-rs/facet/raw/main/static/sponsors-v3/github-dark.svg\">
<img src=\"https://github.com/facet-rs/facet/raw/main/static/sponsors-v3/github-light.svg\" height=\"40\" alt=\"GitHub Sponsors\">
</picture>
</a> <a href=\"https://patreon.com/fasterthanlime\">
    <picture>
    <source media=\"(prefers-color-scheme: dark)\" srcset=\"https://github.com/facet-rs/facet/raw/main/static/sponsors-v3/patreon-dark.svg\">
    <img src=\"https://github.com/facet-rs/facet/raw/main/static/sponsors-v3/patreon-light.svg\" height=\"40\" alt=\"Patreon\">
    </picture>
</a> </p>

...along with corporate sponsors:

<p> <a href=\"https://aws.amazon.com\">
<picture>
<source media=\"(prefers-color-scheme: dark)\" srcset=\"https://github.com/facet-rs/facet/raw/main/static/sponsors-v3/aws-dark.svg\">
<img src=\"https://github.com/facet-rs/facet/raw/main/static/sponsors-v3/aws-light.svg\" height=\"40\" alt=\"AWS\">
</picture>
</a> <a href=\"https://zed.dev\">
<picture>
<source media=\"(prefers-color-scheme: dark)\" srcset=\"https://github.com/facet-rs/facet/raw/main/static/sponsors-v3/zed-dark.svg\">
<img src=\"https://github.com/facet-rs/facet/raw/main/static/sponsors-v3/zed-light.svg\" height=\"40\" alt=\"Zed\">
</picture>
</a> <a href=\"https://depot.dev?utm_source=facet\">
<picture>
<source media=\"(prefers-color-scheme: dark)\" srcset=\"https://github.com/facet-rs/facet/raw/main/static/sponsors-v3/depot-dark.svg\">
<img src=\"https://github.com/facet-rs/facet/raw/main/static/sponsors-v3/depot-light.svg\" height=\"40\" alt=\"Depot\">
</picture>
</a> </p>

...without whom this work could not exist.

## Special thanks

The facet logo was drawn by [Misiasart](https://misiasart.com/).

## License

Licensed under either of:

- Apache License, Version 2.0 ([LICENSE-APACHE](https://github.com/facet-rs/facet/blob/main/LICENSE-APACHE) or <http://www.apache.org/licenses/LICENSE-2.0>)
- MIT license ([LICENSE-MIT](https://github.com/facet-rs/facet/blob/main/LICENSE-MIT) or <http://opensource.org/licenses/MIT>)

at your option.
";

/// The workflow that tests the workspace.
pub const GITHUB_TEST_WORKFLOW: &'static str = "name: Test

on:
  push:
    branches: [main]
  pull_request:
  merge_group:

env:
  CARGO_TERM_COLOR: always

jobs:
  test:
    name: Test
    runs-on: ubuntu-latest
    steps:
      - uses: actions/checkout@v4
      - uses: dtolnay/rust-toolchain@stable
      - uses: taiki-e/install-action@nextest
      - run: cargo nextest run --workspace --all-features --no-tests=pass
      - run: cargo test --doc --workspace --all-features

  coverage:
    name: Coverage
    runs-on: ubuntu-latest
    steps:
      - uses: actions/checkout@v4
      - uses: dtolnay/rust-toolchain@stable
        with:
          components: llvm-tools
      - uses: taiki-e/install-action@cargo-llvm-cov
      - run: cargo llvm-cov --workspace --all-features --lcov --output-path lcov.info
      - uses: coverallsapp/github-action@v2
        with:
          files: lcov.info

  quality:
    name: Clippy, formatting and documentation
    runs-on: ubuntu-latest
    steps:
      - uses: actions/checkout@v4
      - uses: dtolnay/rust-toolchain@stable
        with:
          components: clippy, rustfmt
      - run: cargo fmt --all --check
      - run: cargo clippy --workspace --all-targets --all-features -- -D warnings
      - run: cargo doc --workspace --all-features --no-deps
        env:
          RUSTDOCFLAGS: -D warnings
";

/// The funding file.
pub const GITHUB_FUNDING_YML: &'static str = "github: [fasterthanlime]
patreon: fasterthanlime
";

/// The hook that runs before a commit.
pub const CARGO_HUSKY_PRECOMMIT_HOOK: &'static str = "#!/bin/sh
set -e

facet-dev
";

/// The hook is a script, and runs this program.
pub proof fn lemma_hook()
    ensures
        "#!/bin/sh\n"@.is_prefix_of(CARGO_HUSKY_PRECOMMIT_HOOK@),
        "\nfacet-dev\n"@.is_suffix_of(CARGO_HUSKY_PRECOMMIT_HOOK@),
{
    reveal_strlit("#!/bin/sh\n");
    reveal_strlit("\nfacet-dev\n");
    reveal_strlit("#!/bin/sh\nset -e\n\nfacet-dev\n");
    let hook = "#!/bin/sh\nset -e\n\nfacet-dev\n"@;
    assert(hook.subrange(0, 10) =~= "#!/bin/sh\n"@);
    assert(hook.subrange(hook.len() - 11, hook.len() as int) =~= "\nfacet-dev\n"@);
}

} // verus!
