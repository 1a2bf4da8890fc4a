# axolotl_core

The verified core of the launcher's instance backups, content change runs and
desktop shortcuts, written in Verus.

- `src/` is the library. Its functions carry `requires`/`ensures`
  contracts that Verus proves; the few that call std, `url`, `sha2` or
  `tokio-util` are trusted wrappers whose contracts restate what those
  crates document. The `law_*` proof functions state properties
  that span several functions (normalization is idempotent, canonical
  selections are stable and order independent, shortcut names are portable,
  directory listings are ordered and offer the defaults, stored objects are
  recognized by the sweep, resuming a content change plan is idempotent, ...).
  - `selection` normalizes and canonicalizes backup directory selections.
  - `backup`, `repository`, `snapshot`, `digest` hold the backup values, the
    eligibility rules, the repository checks, scan records and object names.
  - `content_change` holds content change plans and their status rules.
  - `shortcut`, `servers`, `paths`, `text`, `error` hold the rest.
- `app/` is the launcher side: database and file system work, background
  tasks and serialized forms, calling the library for every decision.
- `tests/` runs the library on concrete values.
