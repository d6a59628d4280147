# rustperms

Hierarchical permissions with machine-checked contracts.

A permission is a dotted path such as `user.profile.edit`. Rules attach
`allow` or `deny` to paths, where a segment `?` stands for exactly one
segment and `*` for one or more. Users and weighted groups hold rules;
groups inherit from parent groups. The manager applies batches of
operations to users and groups and decides, for a user and a path, which
rule wins: the heaviest, then the most specific match (exact, `?`, `*`),
then a denial.

Layout:

- `src/` — the library, verified with Verus:
  - `path`, `permissions`: permission paths and the rule tree;
  - `users`, `groups`, `actions`, `manager`: users, groups, operations and
    the manager's decision;
  - `sharding`, `defaults`: shard groups of heavy groups, and the default
    groups and rules;
  - `patterns`, `access`, `permission_layer`, `casbin`, `auth`,
    `request_info`: the decisions of the HTTP middlewares (permission
    patterns such as `doc.{id}.read`, token selection, guest handling);
  - `redis_keys`, `cache_keys`, `perm_keys`, `sessions`, `perm_store`: the
    key schemes and decisions of the caches and stores;
  - `email`, `errors`, `text`, `strset`, `keyed`: emails, error mapping and
    helpers.
- `tests/` — tests run against the compiled library.
- `app/` — a manager shared between tasks, and the wire forms (serde,
  bincode, base64) of operations, users, groups and emails.
