# lockguard

Audits the packages locked in a `composer.lock` against the Packagist
security advisories, and reports the installed versions that an advisory
affects.

- `src/` is the verified library (Verus):
  - `lock.rs`: merging `packages` and `packages-dev`, trimming and
    lowercasing names, rejecting empty or conflicting entries, sorting.
  - `audit.rs`: matching versions against affected ranges, the severity
    threshold, the order of findings, the summary counts and the warnings
    for advisories skipped, with the laws that hold of them.
  - `packagist.rs`: the advisory response as a map, merging of responses,
    the batches of names per request and the retry policy.
  - `request.rs`: the URL of the request for one batch, built with
    `reqwest::Url`.
  - `report.rs`: the text report and the exit status.
  - `cli.rs`: the command-line grammar.
  - `semver.rs`: Composer version and constraint matching through the
    `composer-semver` crate.
  - `overflow.rs`: which constraint texts make that crate add one to
    `u32::MAX`, and a verified test for them.
  - `order.rs`, `text.rs`: a verified stable sort, string order and text
    helpers.
- `app/` holds what is not verified: reading the lock file, sending the
  requests (reqwest), JSON decoding and encoding (serde), error display (thiserror)
  and the program entry.
- `tests/` runs the library on concrete values.
