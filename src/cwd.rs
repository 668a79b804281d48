use vstd::prelude::*;
use crate::bytes::contains_byte;
use crate::error::{OsError, ERANGE};

verus! {

/// The buffer size of the first attempt to read the working directory.
pub const INITIAL_CAPACITY: usize = 512;

/// What the kernel answered to one attempt to read the working directory.
#[derive(Debug)]
pub enum GetcwdReply {
    /// The call succeeded and left this buffer, terminated in place.
    Filled(Vec<u8>),
    /// The directory did not fit the buffer given.
    BufferTooSmall,
    /// The call failed with this code.
    Failed(i32),
}

/// What to do next while reading the working directory.
#[derive(Debug)]
pub enum GetcwdStep {
    /// Make the call again with a buffer of this capacity.
    Call(usize),
    /// The directory, without its terminator.
    Done(Vec<u8>),
    /// Give up with this error.
    Fail(OsError),
}

/// The bytes before the first terminator, or all of them if there is none.
pub open spec fn until_terminator(b: Seq<u8>) -> Seq<u8>
    decreases b.len(),
{
    if b.len() == 0 || b[0] == 0 {
        Seq::<u8>::empty()
    } else {
        seq![b[0]] + until_terminator(b.drop_first())
    }
}

/// The capacity of the attempt after a buffer of `cap` bytes was too small.
pub open spec fn next_capacity(cap: nat) -> nat {
    2 * cap
}

/// The result of an attempt, or none where the call is to be made again.
pub open spec fn reply_outcome(cap: nat, reply: GetcwdReply) -> Option<Result<Seq<u8>, OsError>> {
    match reply {
        GetcwdReply::Filled(b) => Some(Ok(until_terminator(b@))),
        GetcwdReply::BufferTooSmall => if next_capacity(cap) <= usize::MAX {
            None
        } else {
            Some(Err(OsError::Os(ERANGE)))
        },
        GetcwdReply::Failed(c) => Some(Err(OsError::Os(c))),
    }
}

/// Feeding the kernel's replies in turn from a first capacity of `cap`: how
/// many calls were made, and the result once there is one.
pub open spec fn drive(cap: nat, replies: Seq<GetcwdReply>) -> (nat, Option<Result<Seq<u8>, OsError>>)
    decreases replies.len(),
{
    if replies.len() == 0 {
        (0, None)
    } else {
        match reply_outcome(cap, replies[0]) {
            Some(r) => (1, Some(r)),
            None => {
                let rest = drive(next_capacity(cap), replies.drop_first());
                ((rest.0 + 1) as nat, rest.1)
            },
        }
    }
}

/// The capacity after `n` doublings of `cap`.
pub open spec fn doubled(cap: nat, n: nat) -> nat
    decreases n,
{
    if n == 0 {
        cap
    } else {
        doubled(next_capacity(cap), (n - 1) as nat)
    }
}

proof fn lemma_doubled_grows(cap: nat, n: nat)
    ensures
        doubled(cap, n) >= cap,
        n > 0 ==> doubled(cap, n) >= next_capacity(cap),
    decreases n,
{
    if n > 0 {
        lemma_doubled_grows(next_capacity(cap), (n - 1) as nat);
    }
}

/// The first call to read the working directory.
pub fn getcwd_start() -> (r: GetcwdStep)
    ensures
        r == GetcwdStep::Call(INITIAL_CAPACITY),
{
    GetcwdStep::Call(INITIAL_CAPACITY)
}

/// Decides what follows an attempt made with a buffer of `capacity` bytes.
/// A buffer too small is retried with twice the capacity, or, where twice
/// the capacity does not fit in `usize`, ends with the range error; success
/// is cut at the terminator; any other failure is handed on with its code.
pub fn getcwd_step(capacity: usize, reply: GetcwdReply) -> (r: GetcwdStep)
    ensures
        match reply_outcome(capacity as nat, reply) {
            None => r == GetcwdStep::Call((2 * capacity) as usize),
            Some(Ok(p)) => r is Done && r->Done_0@ == p,
            Some(Err(e)) => r == GetcwdStep::Fail(e),
        },
{
    match reply {
        GetcwdReply::Filled(buf) => GetcwdStep::Done(until_terminator_exec(buf)),
        GetcwdReply::BufferTooSmall => {
            if capacity <= usize::MAX / 2 {
                GetcwdStep::Call(2 * capacity)
            } else {
                GetcwdStep::Fail(OsError::Os(ERANGE))
            }
        },
        GetcwdReply::Failed(code) => GetcwdStep::Fail(OsError::Os(code)),
    }
}

proof fn lemma_until_prefix(b: Seq<u8>, i: int)
    requires
        0 <= i <= b.len(),
        forall|j: int| 0 <= j < i ==> b[j] != 0,
        i == b.len() || b[i] == 0,
    ensures
        until_terminator(b) == b.take(i),
    decreases i,
{
    if i == 0 {
        assert(b.take(0) =~= Seq::<u8>::empty());
    } else {
        lemma_until_prefix(b.drop_first(), i - 1);
        assert(b.take(i) =~= seq![b[0]] + b.drop_first().take(i - 1));
    }
}

/// Cuts a filled buffer at its terminator, into a buffer of just that size.
fn until_terminator_exec(buf: Vec<u8>) -> (r: Vec<u8>)
    ensures
        r@ == until_terminator(buf@),
{
    let mut len: usize = 0;
    while len < buf.len() && buf[len] != 0
        invariant
            len <= buf@.len(),
            forall|j: int| 0 <= j < len ==> buf@[j] != 0,
        decreases buf@.len() - len,
    {
        len = len + 1;
    }
    proof {
        lemma_until_prefix(buf@, len as int);
    }
    let mut out: Vec<u8> = Vec::with_capacity(len);
    let mut i: usize = 0;
    while i < len
        invariant
            i <= len <= buf@.len(),
            out@ == buf@.take(i as int),
        decreases len - i,
    {
        out.push(buf[i]);
        i = i + 1;
        assert(out@ =~= buf@.take(i as int));
    }
    out
}

/// A run of replies that are all `BufferTooSmall` for the first `n` calls
/// and then `Filled` takes exactly `n + 1` calls and yields the filled
/// buffer cut at its terminator, provided the capacity never outgrows the
/// address space.
pub proof fn lemma_getcwd_retries(replies: Seq<GetcwdReply>, n: nat)
    requires
        n < replies.len(),
        forall|i: int| 0 <= i < n ==> #[trigger] replies[i] is BufferTooSmall,
        replies[n as int] is Filled,
        doubled(INITIAL_CAPACITY as nat, n) <= usize::MAX,
    ensures
        drive(INITIAL_CAPACITY as nat, replies) == (
            (n + 1) as nat,
            Some(Ok::<Seq<u8>, OsError>(until_terminator(replies[n as int]->Filled_0@))),
        ),
{
    lemma_retries_from(INITIAL_CAPACITY as nat, replies, n);
}

proof fn lemma_retries_from(cap: nat, replies: Seq<GetcwdReply>, n: nat)
    requires
        n < replies.len(),
        forall|i: int| 0 <= i < n ==> #[trigger] replies[i] is BufferTooSmall,
        replies[n as int] is Filled,
        doubled(cap, n) <= usize::MAX,
    ensures
        drive(cap, replies) == (
            (n + 1) as nat,
            Some(Ok::<Seq<u8>, OsError>(until_terminator(replies[n as int]->Filled_0@))),
        ),
    decreases n,
{
    if n > 0 {
        lemma_doubled_grows(cap, n);
        let rest = replies.drop_first();
        assert forall|i: int| 0 <= i < n - 1 implies #[trigger] rest[i] is BufferTooSmall by {
            assert(replies[i + 1] is BufferTooSmall);
        }
        assert(replies[0] is BufferTooSmall);
        lemma_retries_from(next_capacity(cap), rest, (n - 1) as nat);
    }
}

/// A directory read back holds no terminator, so a change of directory to
/// it is never refused for encoding.
pub proof fn lemma_read_directory_has_no_terminator(b: Seq<u8>)
    ensures
        !until_terminator(b).contains(0),
    decreases b.len(),
{
    if b.len() > 0 && b[0] != 0 {
        lemma_read_directory_has_no_terminator(b.drop_first());
        let u = until_terminator(b);
        let t = until_terminator(b.drop_first());
        if u.contains(0) {
            let j = choose|j: int| 0 <= j < u.len() && u[j] == 0;
            assert(j > 0);
            assert(u[j] == t[j - 1]);
        }
    }
}

/// The argument of a change of directory: the path with its terminator.
/// A path that already holds a terminator is refused before any call.
pub fn chdir_argument(p: &[u8]) -> (r: Result<Vec<u8>, OsError>)
    ensures
        r.is_err() <==> p@.contains(0),
        r.is_err() ==> r == Err::<Vec<u8>, OsError>(OsError::Encoding),
        r.is_ok() ==> r.unwrap()@ == p@.push(0),
{
    if contains_byte(p, 0) {
        return Err(OsError::Encoding);
    }
    let mut out = crate::bytes::copy_bytes(p);
    out.push(0);
    Ok(out)
}

} // verus!
