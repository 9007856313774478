# tower-balance

A client-side load balancer whose decisions are verified with [Verus](https://github.com/verus-lang/verus).

The library does no I/O; the generator that the power of two choices draws with is seeded by the
host. `Balance` keeps two tables of endpoints, those that are ready and those that are not, and says
what has to be polled next; its host polls it and says what came of that:

```text
let mut request = balance.poll_ready();
loop {
    let reply = /* poll what `request` names */;
    match balance.resume(reply) {
        Step::Ask(next) => request = next,
        Step::Done(result) => break result,
    }
}
```

When that ends with `Ready`, `Balance::call` names the service that the request goes to.

- `src/balance.rs`: the balancer
- `src/chooser.rs`: round robin and the power of two choices
- `src/model.rs`: the state machine that the balancer's contracts speak of
- `src/laws.rs`, `src/passes.rs`: what holds of every step, and of a poll from beginning to end
- `src/selection.rs`: what holds of the search for a ready service
- `src/reluctance.rs`, `src/rotation.rs`: what holds of a new balancer from its first poll on, with
  services that take their time to become ready, and with requests between the polls
- `src/endpoints.rs`: the tables, `indexmap::IndexMap` with the contracts it is trusted to keep
- `src/poll.rs`, `src/error.rs`, `src/response.rs`: requests, replies, errors and responses
- `app/`: the balancer put to work on services and a source of services that are polled with `futures`
