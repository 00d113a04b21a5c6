# git-credential-helper

A git credential helper that hands out credentials from several providers,
configured in a YAML file: short-lived GitHub App installation tokens
(`github-application`) and fixed credentials (`static`), with per-entry user
access control.

The library under `src/` is verified with Verus:

- `config`: the configuration model and the matching of a request (host,
  repository path, user) to a provider entry, with path normalization.
- `cache`: the token cache contents, lookups with an expiry buffer, and stores
  that prune expired tokens.
- `timestamp`: RFC 3339 UTC timestamps and their conversion to Unix seconds,
  proved to agree with the Gregorian calendar.
- `providers`: the static provider, and the GitHub App provider's decisions
  (cache, installation lookup, token request) as a state machine, its JWT
  claims and signing key.
- `request`: the git credential protocol (request lines, operation, answer)
  and the choice of the calling user's name.
- `text`: character-level helpers (search, split, trim, decimal numbers).
- `keyed`: lists of keyed items in which each key occurs once.

`app/main.rs` is the program around it: command line, configuration and key
files, the cache file, stdin/stdout, reading `SUDO_USER` and the account
database, and the HTTP requests.
