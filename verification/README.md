# eulogy

Give your data a good send off.

`Drop` cannot wait: cleanup that takes time blocks whoever drops the value. This library runs
cleanup that may wait in a task of its own. A guard holds the value; when the guard is dropped, the
value goes through a channel to the task, and the cleanup runs there.

The library is written in Verus. What each function does is stated in its contract and proved, on
top of what is trusted of the crates that it calls: the functions marked `external_body` in
`src/channel.rs` (channels), `src/polling.rs` (pinning and polling), `src/ordering.rs` (writing out
an end of a channel), `src/derive/tokens.rs` (token streams) and `src/derive/syntax.rs` (parsing and
error tokens). The doc comment of each says what is claimed.

What the task hears is tied to what was done at the other ends of the channel: a value that it hears
was handed over, and where it hears that the channel is closed nothing was, and every other end is
gone. When the task hears of it, and whether an executor runs the task, is not stated.

## Layout

- `src/guard.rs`: `DropLater`, the guard of a value
- `src/task.rs`: `later_with`, and the task that waits for the value and cleans it up
- `src/ordering.rs`: `setup`, for order between the cleanup of several values
- `src/__private.rs`: `join_all`, futures that run at the same time
- `src/containers.rs`: the cleanup of options, lists and tuples
- `src/spawner.rs`: `Spawner`, how a task gets onto an executor
- `src/channel.rs`, `src/polling.rs`: what is used of channels, futures and wakers
- `src/derive/`: the derive of a cleanup from the cleanups of the fields
  - `tokens.rs`, `syntax.rs`: token streams, and what is read from them
  - `args.rs`, `directives.rs`: what the `eulogy` attribute of a field asks for
  - `layers.rs`: grouping by what has to come first
  - `plan.rs`, `order.rs`: which fields are cleaned up, in which order, and what holds of that order
  - `progress.rs`: what happens when the code runs
  - `codegen.rs`, `expand.rs`: the code that is written
  - `fault.rs`, `member.rs`: why an item is refused, and how fields are referred to
- `app/`: the trait that users implement, its impls for types of the standard library, the runtimes
  `tokio` and `smol`, and the lookup of the library's name for the derive
- `tests/`: tests of the library

## What is proved of guards and waits

- when the task of a dropped guard is over, the cleanup was called exactly once, on the value that
  the guard held, and has come to its end
- the task waits as long as the guard is neither dropped nor taken apart
- when the value has been taken out, the cleanup is never called
- a wait is over only once every trigger that belongs to it is dropped, clones included

## What is proved of the order

With `#[eulogy(after = [a, b])]` a field is cleaned up once the listed fields are done. Fields are
put into layers; the fields of a layer are cleaned up at the same time, and a layer starts when the
one before it is over. Proved are, among other things:

- a field stands in a later layer than every field that it waits for
- fields that wait for nothing all stand in the first layer, and no field waits longer than it has
  to
- every field stands in exactly one layer, unless it is marked `#[eulogy(skip)]`
- an item is refused exactly if an attribute is bad, a listed field is not there or not cleaned up,
  or fields wait for each other in a circle
