# co_queue

Queues and locks for handing jobs between threads, with their contracts proved by Verus.

* `co_queue`, `blocking`, `stream`: a queue in chunks, with iterators and polling that go
  on when the queue runs dry, and a channel by which they are told to stop. `co_model` says
  what each shared access of a push or a pop does; `co_proof` and `interleave` prove what
  holds whatever the order of the steps of any number of threads.
* `shift_queue`, `shift_guard`: a queue as a list of nodes with a guard beside it, in which
  nodes that were taken off are kept until they can be freed. `shift_model` and
  `shift_proof` do the same for it: any number of threads push and pop at once.
* `own_ref`: pointers as words, with tags in their unused bits.
* `mutex`, `raw_mutex`: a value behind a mutex in one byte. `raw_model` and `raw_proof` prove
  mutual exclusion, that threads are unparked in turn and that none is forgotten.
* `lot`, `parking`, `hash_table`, `table_gate`: parking threads in queues that are found by a
  key, in a table that grows with the number of threads.
* `word_lock`, `word_model`, `word_proof`: a lock in a single word with its own queue.
* `deadlock`, `parker`, `spin_wait`, `backoff`, `channel`, `chunk`: what these are made of.

`app/` holds what touches the system: real atomics, sleeping threads, the clock, and the
traits of other crates. `tests/` runs the library.
