//! The decisions of the worker pool: which worker gets a new task, and how
//! many workers the pool allows.
use vstd::prelude::*;
use vstd::utf8::encode_utf8;
use crate::redis::wire::LF;
use crate::redis::wire::no_newline;

verus! {

/// Where a submitted task goes.
#[derive(PartialEq, Eq, Structural, Debug)]
pub enum ThreadChoice {
    /// To the worker with this index.
    Existing(usize),
    /// To a new worker, started for it.
    Spawn,
}

/// Worker `i` is the first one that is not busy.
pub open spec fn is_first_idle(occupied: Seq<bool>, i: int) -> bool {
    &&& 0 <= i < occupied.len()
    &&& !occupied[i]
    &&& forall|j: int| 0 <= j < i ==> occupied[j]
}

/// Worker `i` is the first one with the shortest queue.
pub open spec fn is_first_shortest(queue_sizes: Seq<usize>, i: int) -> bool {
    &&& 0 <= i < queue_sizes.len()
    &&& forall|j: int| 0 <= j < queue_sizes.len() ==> queue_sizes[i] <= queue_sizes[j]
    &&& forall|j: int| 0 <= j < i ==> queue_sizes[i] < queue_sizes[j]
}

/// Every worker is busy.
pub open spec fn all_busy(occupied: Seq<bool>) -> bool {
    forall|j: int| 0 <= j < occupied.len() ==> occupied[j]
}

/// The choice the pool makes for a new task: the first idle worker; when
/// every worker is busy, a new worker while there are fewer than
/// `thread_count`; otherwise the first worker with the shortest queue.
pub open spec fn is_pool_choice(
    occupied: Seq<bool>,
    queue_sizes: Seq<usize>,
    thread_count: usize,
    choice: ThreadChoice,
) -> bool {
    match choice {
        ThreadChoice::Existing(i) => is_first_idle(occupied, i as int) || (all_busy(occupied)
            && occupied.len() >= thread_count && is_first_shortest(queue_sizes, i as int)),
        ThreadChoice::Spawn => all_busy(occupied) && occupied.len() < thread_count,
    }
}

/// Picks the worker for a new task, given for each worker whether it is busy
/// and how many tasks wait in its queue, and the most workers the pool
/// allows. A pool that allows no worker at all has nowhere to put a task.
pub fn choose_thread(occupied: &Vec<bool>, queue_sizes: &Vec<usize>, thread_count: usize) -> (choice:
    ThreadChoice)
    requires
        occupied@.len() == queue_sizes@.len(),
        occupied@.len() > 0 || thread_count > 0,
    ensures
        is_pool_choice(occupied@, queue_sizes@, thread_count, choice),
{
    let n = occupied.len();
    let mut i: usize = 0;
    while i < n
        invariant
            n == occupied@.len(),
            i <= n,
            forall|j: int| 0 <= j < i ==> occupied@[j],
        decreases n - i,
    {
        if !occupied[i] {
            return ThreadChoice::Existing(i);
        }
        i = i + 1;
    }
    if n < thread_count {
        return ThreadChoice::Spawn;
    }
    let mut best: usize = 0;
    let mut k: usize = 1;
    while k < n
        invariant
            n == queue_sizes@.len(),
            n > 0,
            1 <= k <= n,
            best < k,
            forall|j: int| 0 <= j < k ==> queue_sizes@[best as int] <= queue_sizes@[j],
            forall|j: int| 0 <= j < best ==> queue_sizes@[best as int] < queue_sizes@[j],
        decreases n - k,
    {
        if queue_sizes[k] < queue_sizes[best] {
            best = k;
        }
        k = k + 1;
    }
    ThreadChoice::Existing(best)
}

/// The bytes of the word `processor`.
pub open spec fn processor_word() -> Seq<u8> {
    seq![112u8, 114u8, 111u8, 99u8, 101u8, 115u8, 115u8, 111u8, 114u8]
}

/// A line of `text` starts at `i` and begins with `processor`.
pub open spec fn processor_line_at(text: Seq<u8>, i: int) -> bool {
    &&& 0 <= i
    &&& i == 0 || text[i - 1] == LF
    &&& i + 9 <= text.len()
    &&& text.subrange(i, i + 9) == processor_word()
}

/// How many lines that begin with `processor` start at or after `i`.
pub open spec fn processor_lines_from(text: Seq<u8>, i: int) -> nat
    decreases text.len() - i,
{
    if i < 0 || i >= text.len() {
        0
    } else {
        (if processor_line_at(text, i) {
            1nat
        } else {
            0nat
        }) + processor_lines_from(text, i + 1)
    }
}

/// How many lines of `cpuinfo` (the text of `/proc/cpuinfo`) begin with
/// `processor`: the number of processors it lists.
pub fn count_processors(cpuinfo: &str) -> (count: usize)
    ensures
        count == processor_lines_from(encode_utf8(cpuinfo@), 0),
{
    let text = cpuinfo.as_bytes();
    let n = text.len();
    let mut count: usize = 0;
    let mut i: usize = n;
    while i > 0
        invariant
            n == text@.len(),
            i <= n,
            count == processor_lines_from(text@, i as int),
            count <= n - i,
        decreases i,
    {
        i = i - 1;
        let starts_line = i == 0 || text[i - 1] == LF;
        let mut matches = starts_line && 9 <= n - i;
        if matches {
            let word: [u8; 9] = [112, 114, 111, 99, 101, 115, 115, 111, 114];
            let mut k: usize = 0;
            while k < 9
                invariant
                    i + 9 <= n == text@.len(),
                    k <= 9,
                    word@ == processor_word(),
                    matches <==> forall|j: int| 0 <= j < k ==> text@[i + j] == word@[j],
                decreases 9 - k,
            {
                if text[i + k] != word[k] {
                    matches = false;
                }
                k = k + 1;
            }
            assert(matches <==> text@.subrange(i as int, i + 9) == processor_word()) by {
                if matches {
                    assert(text@.subrange(i as int, i + 9) =~= processor_word());
                }
            }
        }
        if matches {
            count = count + 1;
        }
    }
    count
}

/// `text` is empty or ends with a newline, so that whatever follows it
/// starts a new line.
pub open spec fn ends_at_line_start(text: Seq<u8>) -> bool {
    text.len() == 0 || text.last() == LF
}

/// Counting lines that start at or after the end of `first` in
/// `first + second` is counting the lines of `second` from the matching
/// position.
proof fn lemma_count_shift(first: Seq<u8>, second: Seq<u8>, j: int)
    requires
        ends_at_line_start(first),
        0 <= j,
    ensures
        processor_lines_from(first + second, first.len() + j) == processor_lines_from(second, j),
    decreases second.len() - j,
{
    let whole = first + second;
    let i = first.len() + j;
    if j < second.len() {
        lemma_count_shift(first, second, j + 1);
        if j > 0 {
            assert(whole[i - 1] == second[j - 1]);
        } else if first.len() > 0 {
            assert(whole[i - 1] == first.last());
        }
        if j + 9 <= second.len() {
            assert(whole.subrange(i, i + 9) =~= second.subrange(j, j + 9));
        }
        assert(processor_line_at(whole, i) == processor_line_at(second, j));
    }
}

/// Counting from a position inside `first` in `first + second` counts the
/// lines that start in `first` and then those that start after it.
proof fn lemma_count_split(first: Seq<u8>, second: Seq<u8>, i: int)
    requires
        ends_at_line_start(first),
        0 <= i <= first.len(),
    ensures
        processor_lines_from(first + second, i) == processor_lines_from(first, i)
            + processor_lines_from(first + second, first.len() as int),
    decreases first.len() - i,
{
    let whole = first + second;
    if i < first.len() {
        lemma_count_split(first, second, i + 1);
        if i > 0 {
            assert(whole[i - 1] == first[i - 1]);
        }
        if i + 9 <= first.len() {
            assert(whole.subrange(i, i + 9) =~= first.subrange(i, i + 9));
        } else if i + 9 <= whole.len() {
            let k = first.len() - 1 - i;
            assert(0 <= k < 9);
            assert(whole.subrange(i, i + 9)[k] == first.last());
            assert(processor_word()[k] != LF);
        }
        assert(processor_line_at(whole, i) == processor_line_at(first, i));
    }
}

/// The processor lines of two texts, the first ending with a newline, put
/// one after the other are those of the first and those of the second: every
/// line of the whole text is counted, however far into it.
pub proof fn law_processor_count_adds_up(first: Seq<u8>, second: Seq<u8>)
    requires
        ends_at_line_start(first),
    ensures
        processor_lines_from(first + second, 0) == processor_lines_from(first, 0)
            + processor_lines_from(second, 0),
{
    lemma_count_split(first, second, 0);
    lemma_count_shift(first, second, 0);
}

/// A single `processor` line is counted once.
pub proof fn law_processor_line_counts_once()
    ensures
        processor_lines_from(processor_word().push(LF), 0) == 1,
{
    let line = processor_word().push(LF);
    assert(line.subrange(0, 9) =~= processor_word());
    assert(processor_line_at(line, 0));
    assert forall|j: int| 1 <= j < line.len() implies !#[trigger] processor_line_at(line, j) by {
        assert(line[j - 1] == processor_word()[j - 1]);
    }
    reveal_with_fuel(processor_lines_from, 11);
}

/// The pool's choice is one worker or one spawn, never two: an idle worker
/// is used while there is one, a new worker is started only under the
/// limit, and otherwise the task goes to a worker with the shortest queue.
pub proof fn law_pool_choice_rules(
    occupied: Seq<bool>,
    queue_sizes: Seq<usize>,
    thread_count: usize,
    choice: ThreadChoice,
    other: ThreadChoice,
)
    requires
        occupied.len() == queue_sizes.len(),
        is_pool_choice(occupied, queue_sizes, thread_count, choice),
        is_pool_choice(occupied, queue_sizes, thread_count, other),
    ensures
        choice == other,
        (exists|j: int| 0 <= j < occupied.len() && !occupied[j]) ==> (choice matches ThreadChoice::Existing(
            i,
        ) && i < occupied.len() && !occupied[i as int]),
        choice is Spawn ==> occupied.len() < thread_count,
        choice matches ThreadChoice::Existing(i) ==> i < occupied.len() && (!occupied[i as int] || (
        forall|j: int| 0 <= j < occupied.len() ==> queue_sizes[i as int] <= queue_sizes[j])),
{
    match (choice, other) {
        (ThreadChoice::Existing(a), ThreadChoice::Existing(b)) => {
            if a < b {
                assert(!is_first_idle(occupied, b as int) || occupied[a as int]);
            } else if b < a {
                assert(!is_first_idle(occupied, a as int) || occupied[b as int]);
            }
        },
        _ => {},
    }
}

/// Inside a single line no further line starts.
proof fn lemma_no_line_starts_inside(line: Seq<u8>, j: int)
    requires
        line.len() > 0,
        no_newline(line.drop_last()),
        1 <= j,
    ensures
        processor_lines_from(line, j) == 0,
    decreases line.len() - j,
{
    if j < line.len() {
        lemma_no_line_starts_inside(line, j + 1);
        assert(line[j - 1] == line.drop_last()[j - 1]);
    }
}

/// A single line counts once when it begins with `processor` and not at all
/// otherwise, whatever else it holds.
pub proof fn law_single_line_count(line: Seq<u8>)
    requires
        line.len() > 0,
        no_newline(line.drop_last()),
    ensures
        processor_lines_from(line, 0) == (if line.len() >= 9 && line.take(9) == processor_word() {
            1nat
        } else {
            0nat
        }),
{
    lemma_no_line_starts_inside(line, 1);
    if line.len() >= 9 {
        assert(line.subrange(0, 9) == line.take(9));
    }
}

} // verus!
