//! Batches of independent tasks and the plan by which a pool of workers
//! shares them.
//!
//! A batch is cut into consecutive chunks, one for each worker. Every chunk is
//! handed to a copy of the worker that has been told the chunk's number, and
//! what the copies return is put together in the order of the chunks. A chunk
//! whose worker did not finish adds nothing.

use vstd::arithmetic::div_mod::lemma_fundamental_div_mod;
use vstd::arithmetic::div_mod::lemma_fundamental_div_mod_converse;
use vstd::arithmetic::div_mod::lemma_mod_bound;
use vstd::prelude::*;

verus! {

/// A worker that turns a batch of inputs into a batch of outputs.
///
/// The outputs need not come in the order of the inputs, nor be as many.
///
/// Contracts speak of a worker through two relations, `may_return` and
/// `may_become`, which each worker defines for itself. As they stand here
/// they hold of everything, so that a worker which leaves them alone promises
/// nothing; a worker that defines them says what it does, and is held to it.
pub trait Work {
    type Input;

    type Output;

    /// Whether a worker in this state may return `output` for the batch
    /// `input`.
    open spec fn may_return(&self, input: Seq<Self::Input>, output: Seq<Self::Output>) -> bool {
        true
    }

    /// Whether a worker in this state may be `after` once it was told that
    /// its chunk has the number `id`.
    open spec fn may_become(&self, id: usize, after: &Self) -> bool {
        true
    }

    /// Processes one batch.
    fn work(&mut self, input: Vec<Self::Input>) -> (output: Vec<Self::Output>)
        ensures
            old(self).may_return(input@, output@),
    ;

    /// Tells the worker which chunk of a shared batch it is about to process.
    fn set_id(&mut self, id: usize)
        ensures
            old(self).may_become(id, final(self)),
    ;
}

/// Number of tasks in every chunk but the last: the tasks divided by the
/// workers, rounded up. Without workers the whole batch is one chunk.
pub open spec fn chunk_size(tasks: nat, workers: nat) -> nat {
    if workers == 0 {
        tasks
    } else if tasks % workers == 0 {
        tasks / workers
    } else {
        tasks / workers + 1
    }
}

/// Number of chunks: the tasks divided by the chunk size, rounded up.
pub open spec fn chunk_count(tasks: nat, workers: nat) -> nat {
    let size = chunk_size(tasks, workers);
    if size == 0 {
        0
    } else if tasks % size == 0 {
        tasks / size
    } else {
        tasks / size + 1
    }
}

/// The `k`-th chunk of a batch: the tasks from `k` times the chunk size up to
/// the next multiple of it, or to the end of the batch.
pub open spec fn chunk_of<I>(input: Seq<I>, workers: nat, k: int) -> Seq<I> {
    let size = chunk_size(input.len(), workers) as int;
    let end = if (k + 1) * size < input.len() {
        (k + 1) * size
    } else {
        input.len() as int
    };
    input.subrange(k * size, end)
}

/// The batches one after the other.
pub open spec fn joined<T>(batches: Seq<Vec<T>>) -> Seq<T>
    decreases batches.len(),
{
    if batches.len() == 0 {
        Seq::empty()
    } else {
        joined(batches.drop_last()) + batches.last()@
    }
}

/// The batches of the workers that finished, one after the other.
pub open spec fn gathered<T>(results: Seq<Option<Vec<T>>>) -> Seq<T>
    decreases results.len(),
{
    if results.len() == 0 {
        Seq::empty()
    } else {
        gathered(results.drop_last()) + match results.last() {
            Some(batch) => batch@,
            None => Seq::empty(),
        }
    }
}

/// There are no more chunks than workers; every chunk holds a task, none holds
/// more than the chunk size, and a batch smaller than the number of workers
/// is cut into single tasks.
pub proof fn lemma_chunk_plan(tasks: nat, workers: nat)
    requires
        workers > 0,
    ensures
        chunk_count(tasks, workers) <= workers,
        chunk_count(tasks, workers) * chunk_size(tasks, workers) >= tasks,
        tasks > 0 ==> (chunk_count(tasks, workers) - 1) * chunk_size(tasks, workers) < tasks,
        tasks > 0 ==> chunk_size(tasks, workers) > 0,
        0 < tasks < workers ==> chunk_size(tasks, workers) == 1 && chunk_count(tasks, workers)
            == tasks,
{
    let t = tasks as int;
    let w = workers as int;
    let size = chunk_size(tasks, workers) as int;
    lemma_fundamental_div_mod(t, w);
    lemma_mod_bound(t, w);
    assert(size * w >= t && (t > 0 ==> size > 0) && (size - 1) * w < t) by (nonlinear_arith)
        requires
            t == w * (t / w) + t % w,
            0 <= t % w < w,
            size == if t % w == 0 {
                t / w
            } else {
                t / w + 1
            },
            0 <= t,
    ;
    if size > 0 {
        let count = chunk_count(tasks, workers) as int;
        lemma_fundamental_div_mod(t, size);
        lemma_mod_bound(t, size);
        assert(count * size >= t && (count - 1) * size < t && count <= w) by (nonlinear_arith)
            requires
                t == size * (t / size) + t % size,
                0 <= t % size < size,
                count == if t % size == 0 {
                    t / size
                } else {
                    t / size + 1
                },
                size * w >= t,
                0 < t,
                0 < w,
        ;
        if t < w {
            assert(size == 1) by (nonlinear_arith)
                requires
                    (size - 1) * w < t,
                    t < w,
                    size > 0,
                    0 < w,
            {
                assert(size >= 2 ==> (size - 1) * w >= w);
            }
            assert(count == t) by (nonlinear_arith)
                requires
                    count * size >= t,
                    (count - 1) * size < t,
                    size == 1,
            ;
        }
    }
}

/// The number of chunks is the one number of pieces of the chunk size that
/// just covers the tasks.
proof fn lemma_chunk_count(tasks: nat, workers: nat, count: int)
    requires
        chunk_size(tasks, workers) > 0,
        0 <= (count - 1) * chunk_size(tasks, workers) < tasks <= count * chunk_size(tasks, workers),
    ensures
        chunk_count(tasks, workers) == count,
{
    let t = tasks as int;
    let size = chunk_size(tasks, workers) as int;
    if t == count * size {
        assert(t == count * size + 0);
        lemma_fundamental_div_mod_converse(t, size, count, 0);
    } else {
        let r = t - (count - 1) * size;
        assert(t == (count - 1) * size + r);
        assert(count * size == (count - 1) * size + size) by (nonlinear_arith);
        lemma_fundamental_div_mod_converse(t, size, count - 1, r);
    }
}

/// The size of the chunks into which `tasks` tasks are cut for `workers`
/// workers.
pub fn chunk_size_of(tasks: usize, workers: usize) -> (size: usize)
    ensures
        size == chunk_size(tasks as nat, workers as nat),
        size <= tasks,
        tasks > 0 ==> size > 0,
{
    if workers == 0 {
        tasks
    } else if tasks % workers == 0 {
        proof {
            lemma_chunk_plan(tasks as nat, workers as nat);
            lemma_quotient_small(tasks as int, workers as int);
        }
        tasks / workers
    } else {
        proof {
            lemma_chunk_plan(tasks as nat, workers as nat);
            lemma_quotient_small(tasks as int, workers as int);
        }
        tasks / workers + 1
    }
}

/// A quotient does not exceed what is divided, and is smaller where there is
/// a remainder.
proof fn lemma_quotient_small(t: int, w: int)
    requires
        0 <= t,
        0 < w,
    ensures
        t / w <= t,
        t % w != 0 ==> t / w < t,
{
    lemma_fundamental_div_mod(t, w);
    lemma_mod_bound(t, w);
    assert(t / w <= t && (t % w != 0 ==> t / w < t)) by (nonlinear_arith)
        requires
            t == w * (t / w) + t % w,
            0 <= t % w < w,
            0 <= t,
            0 < w,
    ;
}

/// Cuts a batch into the chunks that `workers` workers share.
pub fn split_chunks<I>(input: Vec<I>, workers: usize) -> (chunks: Vec<Vec<I>>)
    ensures
        chunks.len() == chunk_count(input@.len(), workers as nat),
        forall|k: int|
            0 <= k < chunks.len() ==> (#[trigger] chunks[k])@ == chunk_of(
                input@,
                workers as nat,
                k,
            ),
        joined(chunks@) == input@,
{
    let total: usize = input.len();
    let size: usize = chunk_size_of(total, workers);
    let mut chunks: Vec<Vec<I>> = Vec::new();
    if total == 0 {
        assert(joined(chunks@) =~= input@);
        return chunks;
    }
    let mut rest: Vec<I> = input;
    let mut done: usize = 0;
    while rest.len() > size
        invariant
            0 < size <= total,
            total == input@.len(),
            size == chunk_size(total as nat, workers as nat),
            done == chunks.len(),
            done <= total,
            done * size + rest@.len() == total,
            rest@.len() > 0,
            rest@ == input@.subrange(done * size, total as int),
            forall|k: int|
                0 <= k < chunks.len() ==> (#[trigger] chunks[k])@ == chunk_of(
                    input@,
                    workers as nat,
                    k,
                ),
            joined(chunks@) == input@.subrange(0, done * size),
        decreases rest@.len(),
    {
        let tail: Vec<I> = rest.split_off(size);
        proof {
            assert((done + 1) * size == done * size + size) by (nonlinear_arith);
            assert(done + 1 <= (done + 1) * size) by (nonlinear_arith)
                requires
                    size >= 1,
                    done >= 0,
            ;
            assert(rest@ =~= input@.subrange(done * size, (done + 1) * size));
            assert(tail@ =~= input@.subrange((done + 1) * size, total as int));
            assert(chunks@.push(rest).drop_last() =~= chunks@);
            assert(joined(chunks@.push(rest)) =~= input@.subrange(0, (done + 1) * size));
        }
        chunks.push(rest);
        rest = tail;
        done = done + 1;
    }
    proof {
        assert((done + 1) * size == done * size + size) by (nonlinear_arith);
        assert(chunks@.push(rest).drop_last() =~= chunks@);
        assert(joined(chunks@.push(rest)) =~= input@);
        lemma_chunk_count(total as nat, workers as nat, done + 1);
    }
    chunks.push(rest);
    chunks
}

/// Puts together what the workers returned, in the order of their chunks. A
/// worker that did not finish is `None` and adds nothing.
pub fn gather<O>(results: Vec<Option<Vec<O>>>) -> (all: Vec<O>)
    ensures
        all@ == gathered(results@),
{
    let mut all: Vec<O> = Vec::new();
    let mut results = results;
    let ghost whole = results@;
    let mut rest: Vec<Option<Vec<O>>> = Vec::new();
    // Reverse, so that the results can be taken from the back in their order.
    while results.len() > 0
        invariant
            whole =~= results@ + rest@.reverse(),
        decreases results.len(),
    {
        let last = results.pop().unwrap();
        rest.push(last);
    }
    assert(whole =~= rest@.reverse());
    let ghost mut taken: Seq<Option<Vec<O>>> = Seq::empty();
    while rest.len() > 0
        invariant
            whole =~= taken + rest@.reverse(),
            all@ == gathered(taken),
        decreases rest.len(),
    {
        let next = rest.pop().unwrap();
        proof {
            assert(taken.push(next).drop_last() =~= taken);
            taken = taken.push(next);
        }
        match next {
            Some(batch) => {
                let mut batch = batch;
                all.append(&mut batch);
            },
            None => {},
        }
    }
    assert(whole =~= taken);
    all
}

/// One chunk was served as the pool serves it: `copy` is a copy of `work`,
/// `ready` is what `copy` became when it was told the number of the chunk,
/// and `batch` is what `ready` may return for the chunk.
pub open spec fn chunk_served<W: Work + Clone>(
    work: W,
    id: int,
    copy: W,
    ready: W,
    chunk: Seq<W::Input>,
    batch: Seq<W::Output>,
) -> bool {
    cloned(work, copy) && copy.may_become(id as usize, &ready) && ready.may_return(chunk, batch)
}

/// Every chunk of the batch was served as the pool serves it: the `k`-th by
/// the `k`-th of `copies`, which became the `k`-th of `ready` and returned
/// the `k`-th of `batches`.
pub open spec fn pool_served<W: Work + Clone>(
    workers: nat,
    work: W,
    input: Seq<W::Input>,
    copies: Seq<W>,
    ready: Seq<W>,
    batches: Seq<Vec<W::Output>>,
) -> bool {
    &&& copies.len() == chunk_count(input.len(), workers)
    &&& ready.len() == chunk_count(input.len(), workers)
    &&& batches.len() == chunk_count(input.len(), workers)
    &&& forall|k: int|
        0 <= k < batches.len() ==> chunk_served(
            work,
            k,
            #[trigger] copies[k],
            ready[k],
            chunk_of(input, workers, k),
            batches[k]@,
        )
}

/// What a pool of `workers` copies of `work` may return for a batch: what
/// `work` itself may return for it where there are no workers; otherwise what
/// the copies return for the chunks, one after the other in the order of the
/// chunks.
pub open spec fn may_pool<W: Work + Clone>(
    workers: nat,
    work: W,
    input: Seq<W::Input>,
    output: Seq<W::Output>,
) -> bool {
    if workers == 0 {
        work.may_return(input, output)
    } else {
        exists|copies: Seq<W>, ready: Seq<W>, batches: Seq<Vec<W::Output>>|
            #[trigger] pool_served(workers, work, input, copies, ready, batches) && output
                == joined(batches)
    }
}

/// Runs a batch through a pool of `workers` workers, each a copy of `work`,
/// and returns what the copies return, in the order of their chunks. Without
/// workers, `work` itself processes the whole batch.
///
/// The chunks are processed one after the other on the calling thread. They
/// share nothing, so a caller with threads of its own can hand the chunks of
/// [`split_chunks`] to them and [`gather`] the results instead.
pub fn work_pool<I, O, W>(workers: usize, input: Vec<I>, work: W) -> (output: Vec<O>) where
    W: Work<Input = I, Output = O> + Clone,

    ensures
        may_pool(workers as nat, work, input@, output@),
        workers > 0 && input@.len() == 0 ==> output@.len() == 0,
{
    if workers == 0 {
        let mut work = work;
        return work.work(input);
    }
    let mut chunks: Vec<Vec<I>> = split_chunks(input, workers);
    let ghost all = chunks@;
    // Reverse, so that the chunks can be taken from the back in their order.
    let mut rest: Vec<Vec<I>> = Vec::new();
    while chunks.len() > 0
        invariant
            chunks@.len() + rest@.len() == all.len(),
            forall|j: int| 0 <= j < chunks@.len() ==> chunks@[j] == all[j],
            forall|j: int| 0 <= j < rest@.len() ==> rest@[j] == all[all.len() - 1 - j],
        decreases chunks.len(),
    {
        let last = chunks.pop().unwrap();
        rest.push(last);
    }
    let mut output: Vec<O> = Vec::new();
    let mut id: usize = 0;
    let ghost mut copies: Seq<W> = Seq::empty();
    let ghost mut ready: Seq<W> = Seq::empty();
    let ghost mut batches: Seq<Vec<O>> = Seq::empty();
    while rest.len() > 0
        invariant
            id + rest@.len() == all.len(),
            all.len() <= usize::MAX,
            all.len() == chunk_count(input@.len(), workers as nat),
            forall|j: int| 0 <= j < rest@.len() ==> rest@[j] == all[all.len() - 1 - j],
            forall|k: int|
                0 <= k < all.len() ==> (#[trigger] all[k])@ == chunk_of(input@, workers as nat, k),
            copies.len() == id,
            ready.len() == id,
            batches.len() == id,
            forall|k: int|
                0 <= k < id ==> chunk_served(
                    work,
                    k,
                    #[trigger] copies[k],
                    ready[k],
                    chunk_of(input@, workers as nat, k),
                    batches[k]@,
                ),
            output@ == joined(batches),
        decreases rest.len(),
    {
        let chunk = rest.pop().unwrap();
        assert(chunk == all[id as int]);
        let mut worker = work.clone();
        let ghost copy = worker;
        worker.set_id(id);
        let ghost told = worker;
        let mut batch = worker.work(chunk);
        proof {
            assert(chunk_served(
                work,
                id as int,
                copy,
                told,
                chunk_of(input@, workers as nat, id as int),
                batch@,
            ));
            assert(batches.push(batch).drop_last() =~= batches);
            copies = copies.push(copy);
            ready = ready.push(told);
            batches = batches.push(batch);
        }
        output.append(&mut batch);
        id = id + 1;
    }
    proof {
        assert(pool_served(workers as nat, work, input@, copies, ready, batches));
        if all.len() == 0 {
            assert(joined(batches) =~= Seq::<O>::empty());
        }
        lemma_no_tasks_no_chunks(workers as nat);
    }
    output
}

/// What holds of every member of every batch holds of every member of the
/// batches put together.
pub proof fn lemma_joined_members<T>(batches: Seq<Vec<T>>, holds: spec_fn(T) -> bool)
    requires
        forall|k: int, j: int|
            0 <= k < batches.len() && 0 <= j < batches[k]@.len() ==> holds(
                #[trigger] batches[k]@[j],
            ),
    ensures
        forall|i: int| 0 <= i < joined(batches).len() ==> holds(#[trigger] joined(batches)[i]),
    decreases batches.len(),
{
    if batches.len() > 0 {
        let shorter = batches.drop_last();
        assert forall|k: int, j: int|
            0 <= k < shorter.len() && 0 <= j < shorter[k]@.len() implies holds(
            #[trigger] shorter[k]@[j],
        ) by {
            assert(shorter[k] == batches[k]);
        }
        lemma_joined_members(shorter, holds);
        let head = joined(shorter);
        let last = batches.last();
        assert forall|i: int| 0 <= i < joined(batches).len() implies holds(
            #[trigger] joined(batches)[i],
        ) by {
            if i < head.len() {
                assert(joined(batches)[i] == head[i]);
            } else {
                assert(joined(batches)[i] == last@[i - head.len()]);
                assert(last == batches[batches.len() - 1]);
            }
        }
    }
}

/// Batches that are as long as the chunks of a batch are together as long as
/// that batch.
pub proof fn lemma_joined_length<I, T>(input: Seq<I>, workers: nat, batches: Seq<Vec<T>>)
    requires
        workers > 0,
        batches.len() == chunk_count(input.len(), workers),
        forall|k: int|
            0 <= k < batches.len() ==> (#[trigger] batches[k])@.len() == chunk_of(
                input,
                workers,
                k,
            ).len(),
    ensures
        joined(batches).len() == input.len(),
{
    lemma_chunk_plan(input.len(), workers);
    lemma_joined_prefix(input, workers, batches, batches.len() as int);
    assert(batches.take(batches.len() as int) =~= batches);
    if input.len() == 0 {
        assert(joined(batches) =~= Seq::<T>::empty());
    }
}

/// The first `m` of such batches are together as long as the first `m`
/// chunks.
proof fn lemma_joined_prefix<I, T>(input: Seq<I>, workers: nat, batches: Seq<Vec<T>>, m: int)
    requires
        workers > 0,
        0 <= m <= batches.len(),
        batches.len() == chunk_count(input.len(), workers),
        forall|k: int|
            0 <= k < batches.len() ==> (#[trigger] batches[k])@.len() == chunk_of(
                input,
                workers,
                k,
            ).len(),
    ensures
        joined(batches.take(m)).len() == if m * chunk_size(input.len(), workers) < input.len() {
            m * chunk_size(input.len(), workers)
        } else {
            input.len() as int
        },
    decreases m,
{
    let size = chunk_size(input.len(), workers) as int;
    let count = chunk_count(input.len(), workers) as int;
    let n = input.len() as int;
    lemma_chunk_plan(input.len(), workers);
    if m == 0 {
        assert(joined(batches.take(0)) =~= Seq::<T>::empty());
        assert(0 * size == 0);
    } else {
        lemma_joined_prefix(input, workers, batches, m - 1);
        assert(batches.take(m).drop_last() =~= batches.take(m - 1));
        assert(batches.take(m).last() == batches[m - 1]);
        assert((m - 1) * size <= (count - 1) * size) by (nonlinear_arith)
            requires
                m <= count,
                size >= 0,
        ;
        assert(m * size == (m - 1) * size + size) by (nonlinear_arith);
        assert(n > 0);
    }
}

/// An empty batch has no chunk.
proof fn lemma_no_tasks_no_chunks(workers: nat)
    ensures
        chunk_count(0, workers) == 0,
{
}

} // verus!
