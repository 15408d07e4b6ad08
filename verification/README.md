# sysctl_mutator

The verified core of a Kubernetes mutating admission webhook that sets pod sysctls by a
hierarchical merge: cluster-wide defaults, overridden by a namespace's
`sysctl-mutator.gromware.com/sysctls` annotation, overridden by the pod's own
`spec.securityContext.sysctls`.

- `src/name_order.rs`: the order of names and its laws.
- `src/string_map.rs`: `StringMap`, a string-to-string map kept in ascending key order.
- `src/json.rs`: reading a JSON object of string values (through `serde_json`).
- `src/config.rs`: the settings and the parsing of the default sysctls.
- `src/webhook.rs`: the merge, and the decision to admit, refuse or patch a pod.
- `app/`: the HTTPS server, the namespace watch cache and the conversions from and to the
  Kubernetes types.
