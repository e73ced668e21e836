# huskarl-route-guard

Match a request path to an authorization rule, and reject it where downstream path
parsing could select a different rule. The guard checks the parsing behaviors that its
configuration declares, and never rewrites the path.

```rust
use huskarl_route_guard::{CaseSensitivity, DecodeDepth, GuardConfig, RuleRouter};

let config = GuardConfig::new(CaseSensitivity::Sensitive, DecodeDepth::UpToOne);
let router = RuleRouter::builder("public", config)
    .subtree("/admin", "admin")
    .route("/health", "health")
    .build()
    .expect("valid route table");

// Decoding this slash could change the rule from public to admin.
assert!(router.resolve("/admin%2fusers", &http::Method::GET).is_err());
// Splitting this segment stays inside the admin rule.
assert!(router.resolve("/admin/a%2fb", &http::Method::GET).is_ok());
```

The library is written in Verus. Every function states what it returns, and the proofs
are checked with the code.

## What is proved

- Whatever a backend of the declared kind makes of an accepted path, in any number of
  moves and in any order, selects the same rule (`agreement_laws`, `router_laws`). The
  moves are defined in `rewriting`.
- Stricter settings only add denials, in any combination (`guard_laws`, `router_laws`); so a
  backend that does less than is declared still selects the same rule. Canonical paths pass
  the built-in checks, and every active mode denies a NUL (`guard_laws`). Where the default
  mode is compared with the strict one, and where canonical paths pass, a path over the length
  limit with a `%` that begins no escape is left out: the default mode refuses to analyze it,
  and the strict mode has nothing to analyze.
- More registrations only add denials, as long as the path keeps what it selects
  (`extension_laws`). Where that is the default or a denial of the method, the law leaves out
  registrations that have no rule for the method and say the same of it.
- The region that the structural check looks at holds what every path behind the anchor
  selects (`coverage`), and a longer anchor has no more outcomes.
- Each rule stands at the terminals that it was registered for, whatever the order of the
  registrations; a table is refused exactly where a method slot is claimed twice
  (`table_laws`).
- An exclusive tail is refused exactly where another pattern takes precedence in it
  (`exclusive_laws`); a subtree covers its prefix and everything below (`subtree_laws`).
- Method-gap diagnostics are true, and complete over the paths they examine
  (`diagnostics_laws`, `overlap_laws`).

## What is believed

`http::Method` is opaque: its comparison, its copy, its parsing and its text are taken
from the `http` crate (`methods`). The quoted spelling of a string is std's (`text`), and a
custom probe answers behind a shared pointer as it does by itself (`config`).

## Layout

`src/path_router.rs` is the entry point; `src/lib.rs` says what the other modules are for.
`tests/` runs the library.
