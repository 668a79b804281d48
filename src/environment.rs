use vstd::prelude::*;
use crate::bytes::{bytes_eq, contains_byte, copy_bytes};
use crate::error::{OsError, EINVAL};

verus! {

/// The byte that ends a string in the kernel's calling convention.
pub const TERMINATOR: u8 = 0;

/// The byte that separates a variable's name from its value.
pub const ASSIGN: u8 = 61;

/// One variable, as a pair of byte sequences.
pub type Var = (Vec<u8>, Vec<u8>);

pub open spec fn var_view(kv: Var) -> (Seq<u8>, Seq<u8>) {
    (kv.0@, kv.1@)
}

pub open spec fn vars_view(vs: Seq<Var>) -> Seq<(Seq<u8>, Seq<u8>)> {
    vs.map_values(|kv: Var| var_view(kv))
}

/// A name that can be set: non-empty, with no terminator or assignment byte.
pub open spec fn valid_key(k: Seq<u8>) -> bool {
    k.len() > 0 && !k.contains(TERMINATOR) && !k.contains(ASSIGN)
}

pub open spec fn has_key(e: Seq<(Seq<u8>, Seq<u8>)>, k: Seq<u8>) -> bool {
    exists|i: int| 0 <= i < e.len() && #[trigger] e[i].0 == k
}

pub open spec fn key_index(e: Seq<(Seq<u8>, Seq<u8>)>, k: Seq<u8>) -> int {
    choose|i: int| 0 <= i < e.len() && #[trigger] e[i].0 == k
}

/// The value of `k` in a table, if it has one.
pub open spec fn lookup(e: Seq<(Seq<u8>, Seq<u8>)>, k: Seq<u8>) -> Option<Seq<u8>> {
    if has_key(e, k) {
        Some(e[key_index(e, k)].1)
    } else {
        None
    }
}

/// A table after `k` is set to `v`: its entry is replaced in place, or a new
/// one is added at the end.
pub open spec fn set_spec(e: Seq<(Seq<u8>, Seq<u8>)>, k: Seq<u8>, v: Seq<u8>) -> Seq<
    (Seq<u8>, Seq<u8>),
> {
    if has_key(e, k) {
        e.update(key_index(e, k), (k, v))
    } else {
        e.push((k, v))
    }
}

/// A table after `k` is removed; the other entries keep their order.
pub open spec fn unset_spec(e: Seq<(Seq<u8>, Seq<u8>)>, k: Seq<u8>) -> Seq<(Seq<u8>, Seq<u8>)> {
    if has_key(e, k) {
        e.remove(key_index(e, k))
    } else {
        e
    }
}

/// Names are unique and valid, values hold no terminator.
pub open spec fn table_wf(e: Seq<(Seq<u8>, Seq<u8>)>) -> bool {
    &&& forall|i: int, j: int| 0 <= i < j < e.len() ==> #[trigger] e[i].0 != #[trigger] e[j].0
    &&& forall|i: int| 0 <= i < e.len() ==> valid_key(#[trigger] e[i].0)
    &&& forall|i: int| 0 <= i < e.len() ==> !(#[trigger] e[i].1).contains(TERMINATOR)
}

/// In a well-formed table a name stands at one place only.
proof fn lemma_key_index(e: Seq<(Seq<u8>, Seq<u8>)>, i: int)
    requires
        table_wf(e),
        0 <= i < e.len(),
    ensures
        has_key(e, e[i].0),
        key_index(e, e[i].0) == i,
        lookup(e, e[i].0) == Some(e[i].1),
{
    assert(has_key(e, e[i].0));
    let j = key_index(e, e[i].0);
    if j != i {
        if j < i {
            assert(e[j].0 != e[i].0);
        } else {
            assert(e[i].0 != e[j].0);
        }
    }
}

/// The process environment: variables in the order they were first set.
pub struct EnvTable {
    vars: Vec<Var>,
}

impl EnvTable {
    pub closed spec fn entries(&self) -> Seq<(Seq<u8>, Seq<u8>)> {
        vars_view(self.vars@)
    }

    pub open spec fn wf(&self) -> bool {
        table_wf(self.entries())
    }

    /// A table with no variables.
    pub fn new() -> (r: EnvTable)
        ensures
            r.wf(),
            r.entries() == Seq::<(Seq<u8>, Seq<u8>)>::empty(),
    {
        let r = EnvTable { vars: Vec::new() };
        assert(r.entries() =~= Seq::<(Seq<u8>, Seq<u8>)>::empty());
        r
    }

    /// Where `k` stands in the table, if it is there.
    fn find(&self, k: &[u8]) -> (r: Option<usize>)
        ensures
            r.is_none() <==> !has_key(self.entries(), k@),
            r.is_some() ==> r.unwrap() < self.entries().len() && self.entries()[r.unwrap()
                as int].0 == k@,
    {
        let mut i: usize = 0;
        while i < self.vars.len()
            invariant
                i <= self.vars@.len(),
                forall|j: int| 0 <= j < i ==> self.entries()[j].0 != k@,
            decreases self.vars@.len() - i,
        {
            if bytes_eq(self.vars[i].0.as_slice(), k) {
                assert(self.entries()[i as int].0 == self.vars@[i as int].0@);
                return Some(i);
            }
            i = i + 1;
        }
        None
    }
}

/// Turns a kernel-convention check into the error this layer reports.
fn check_terminator(b: &[u8]) -> (r: Result<(), OsError>)
    ensures
        r.is_err() <==> b@.contains(TERMINATOR),
        r.is_err() ==> r == Err::<(), OsError>(OsError::Encoding),
{
    if contains_byte(b, TERMINATOR) {
        Err(OsError::Encoding)
    } else {
        Ok(())
    }
}

/// Checks that a name can be set or removed.
fn check_key(k: &[u8]) -> (r: Result<(), OsError>)
    ensures
        k@.contains(TERMINATOR) ==> r == Err::<(), OsError>(OsError::Encoding),
        !k@.contains(TERMINATOR) && !valid_key(k@) ==> r == Err::<(), OsError>(
            OsError::Os(EINVAL),
        ),
        valid_key(k@) ==> r.is_ok(),
{
    check_terminator(k)?;
    if k.len() == 0 || contains_byte(k, ASSIGN) {
        return Err(OsError::Os(EINVAL));
    }
    Ok(())
}

/// The value of variable `k`. A name that holds a terminator cannot be in
/// the table and is reported as an encoding error, not as absent.
pub fn getenv(table: &EnvTable, k: &[u8]) -> (r: Result<Option<Vec<u8>>, OsError>)
    requires
        table.wf(),
    ensures
        k@.contains(TERMINATOR) ==> r == Err::<Option<Vec<u8>>, OsError>(OsError::Encoding),
        !k@.contains(TERMINATOR) ==> r.is_ok() && match r.unwrap() {
            Some(v) => lookup(table.entries(), k@) == Some(v@),
            None => lookup(table.entries(), k@).is_none(),
        },
{
    check_terminator(k)?;
    match table.find(k) {
        Some(i) => {
            proof {
                lemma_key_index(table.entries(), i as int);
            }
            Ok(Some(copy_bytes(table.vars[i].1.as_slice())))
        },
        None => Ok(None),
    }
}

/// Sets variable `k` to `v`. Nothing changes when the call fails: with an
/// encoding error where either holds a terminator, with `EINVAL` where the
/// name is empty or holds the assignment byte.
pub fn setenv(table: &mut EnvTable, k: &[u8], v: &[u8]) -> (r: Result<(), OsError>)
    requires
        old(table).wf(),
    ensures
        final(table).wf(),
        k@.contains(TERMINATOR) || v@.contains(TERMINATOR) ==> r == Err::<(), OsError>(
            OsError::Encoding,
        ),
        !k@.contains(TERMINATOR) && !v@.contains(TERMINATOR) && !valid_key(k@) ==> r == Err::<
            (),
            OsError,
        >(OsError::Os(EINVAL)),
        r.is_err() ==> final(table).entries() == old(table).entries(),
        valid_key(k@) && !v@.contains(TERMINATOR) ==> r.is_ok() && final(table).entries()
            == set_spec(old(table).entries(), k@, v@),
{
    check_terminator(k)?;
    check_terminator(v)?;
    check_key(k)?;
    let ghost e = table.entries();
    let pair = (copy_bytes(k), copy_bytes(v));
    match table.find(k) {
        Some(i) => {
            proof {
                lemma_key_index(e, i as int);
            }
            table.vars.set(i, pair);
            assert(table.entries() =~= set_spec(e, k@, v@));
        },
        None => {
            table.vars.push(pair);
            assert(table.entries() =~= set_spec(e, k@, v@));
        },
    }
    assert(table.wf()) by {
        let n = table.entries();
        assert forall|a: int, b: int| 0 <= a < b < n.len() implies #[trigger] n[a].0
            != #[trigger] n[b].0 by {
            if a < e.len() && b < e.len() {
                assert(e[a].0 != e[b].0);
            }
        }
    }
    Ok(())
}

/// Removes variable `k`; the other variables keep their order. Removing an
/// absent name succeeds. Failures are those of `setenv` on the name.
pub fn unsetenv(table: &mut EnvTable, k: &[u8]) -> (r: Result<(), OsError>)
    requires
        old(table).wf(),
    ensures
        final(table).wf(),
        k@.contains(TERMINATOR) ==> r == Err::<(), OsError>(OsError::Encoding),
        !k@.contains(TERMINATOR) && !valid_key(k@) ==> r == Err::<(), OsError>(
            OsError::Os(EINVAL),
        ),
        r.is_err() ==> final(table).entries() == old(table).entries(),
        valid_key(k@) ==> r.is_ok() && final(table).entries() == unset_spec(
            old(table).entries(),
            k@,
        ),
{
    check_key(k)?;
    let ghost e = table.entries();
    match table.find(k) {
        Some(i) => {
            proof {
                lemma_key_index(e, i as int);
            }
            table.vars.remove(i);
            assert(table.entries() =~= unset_spec(e, k@));
        },
        None => {},
    }
    assert(table.wf()) by {
        let n = table.entries();
        if has_key(e, k@) {
            let i = key_index(e, k@);
            assert forall|a: int, b: int| 0 <= a < b < n.len() implies #[trigger] n[a].0
                != #[trigger] n[b].0 by {
                let a0 = if a < i { a } else { a + 1 };
                let b0 = if b < i { b } else { b + 1 };
                assert(n[a] == e[a0]);
                assert(n[b] == e[b0]);
                assert(e[a0].0 != e[b0].0);
            }
            assert forall|a: int| 0 <= a < n.len() implies valid_key(#[trigger] n[a].0) && !n[
                a
            ].1.contains(TERMINATOR) by {
                let a0 = if a < i { a } else { a + 1 };
                assert(n[a] == e[a0]);
            }
        }
    }
    Ok(())
}

/// A copy of the table taken at one moment, handed out one variable at a
/// time; later changes to the table do not reach it.
pub struct Env {
    vars: Vec<Var>,
    pos: usize,
}

impl Env {
    pub closed spec fn wf(&self) -> bool {
        self.pos <= self.vars@.len()
    }

    /// The variables not yet handed out, in order.
    pub closed spec fn remaining(&self) -> Seq<(Seq<u8>, Seq<u8>)> {
        vars_view(self.vars@).subrange(self.pos as int, self.vars@.len() as int)
    }

    /// Hands out the next variable, if any is left.
    pub fn next(&mut self) -> (r: Option<(Vec<u8>, Vec<u8>)>)
        requires
            old(self).wf(),
        ensures
            final(self).wf(),
            old(self).remaining().len() == 0 ==> r.is_none() && final(self).remaining()
                == old(self).remaining(),
            old(self).remaining().len() > 0 ==> r.is_some() && var_view(r.unwrap()) == old(
                self,
            ).remaining()[0] && final(self).remaining() == old(self).remaining().drop_first(),
    {
        if self.pos < self.vars.len() {
            let kv = (
                copy_bytes(self.vars[self.pos].0.as_slice()),
                copy_bytes(self.vars[self.pos].1.as_slice()),
            );
            self.pos = self.pos + 1;
            assert(self.remaining() =~= old(self).remaining().drop_first());
            Some(kv)
        } else {
            None
        }
    }

    /// The exact number of variables left, as lower and upper bound.
    pub fn size_hint(&self) -> (r: (usize, Option<usize>))
        requires
            self.wf(),
        ensures
            r.0 == self.remaining().len(),
            r.1 == Some(r.0),
    {
        let n = self.vars.len() - self.pos;
        (n, Some(n))
    }
}

/// A snapshot of every variable, in the table's order.
pub fn env(table: &EnvTable) -> (r: Env)
    ensures
        r.wf(),
        r.remaining() == table.entries(),
{
    let mut vars: Vec<Var> = Vec::new();
    let mut i: usize = 0;
    while i < table.vars.len()
        invariant
            i <= table.vars@.len(),
            vars_view(vars@) == table.entries().take(i as int),
        decreases table.vars@.len() - i,
    {
        let kv = (copy_bytes(table.vars[i].0.as_slice()), copy_bytes(table.vars[i].1.as_slice()));
        assert(table.entries()[i as int] == var_view(table.vars@[i as int]));
        assert(var_view(kv) == table.entries()[i as int]);
        let ghost before = vars_view(vars@);
        vars.push(kv);
        assert(vars_view(vars@) =~= before.push(var_view(kv)));
        i = i + 1;
        assert(vars_view(vars@) =~= table.entries().take(i as int));
    }
    let r = Env { vars, pos: 0 };
    assert(r.remaining() =~= table.entries());
    r
}

/// Every variable of a snapshot has, by name, the value that the snapshot
/// shows, as long as the table has not changed since.
pub proof fn lemma_snapshot_agrees_with_lookup(table: EnvTable, snapshot: Seq<(Seq<u8>, Seq<u8>)>, i: int)
    requires
        table.wf(),
        snapshot == table.entries(),
        0 <= i < snapshot.len(),
    ensures
        lookup(table.entries(), snapshot[i].0) == Some(snapshot[i].1),
{
    lemma_key_index(table.entries(), i);
}

/// Setting a variable and then reading it gives the value set.
pub proof fn lemma_set_then_lookup(e: Seq<(Seq<u8>, Seq<u8>)>, k: Seq<u8>, v: Seq<u8>)
    requires
        table_wf(e),
        valid_key(k),
        !v.contains(TERMINATOR),
    ensures
        lookup(set_spec(e, k, v), k) == Some(v),
{
    let n = set_spec(e, k, v);
    if has_key(e, k) {
        let i = key_index(e, k);
        assert(n[i].0 == k);
        assert(table_wf(n)) by {
            assert forall|a: int, b: int| 0 <= a < b < n.len() implies #[trigger] n[a].0
                != #[trigger] n[b].0 by {
                assert(e[a].0 != e[b].0);
            }
        }
        lemma_key_index(n, i);
    } else {
        let i = e.len() as int;
        assert(n[i].0 == k);
        assert(table_wf(n)) by {
            assert forall|a: int, b: int| 0 <= a < b < n.len() implies #[trigger] n[a].0
                != #[trigger] n[b].0 by {
                if b == i {
                    assert(!(e[a].0 == k));
                } else {
                    assert(e[a].0 != e[b].0);
                }
            }
        }
        lemma_key_index(n, i);
    }
}

/// Removing a variable and then reading it finds nothing.
pub proof fn lemma_unset_then_lookup(e: Seq<(Seq<u8>, Seq<u8>)>, k: Seq<u8>)
    requires
        table_wf(e),
    ensures
        lookup(unset_spec(e, k), k).is_none(),
{
    let n = unset_spec(e, k);
    if has_key(e, k) {
        let i = key_index(e, k);
        if has_key(n, k) {
            let j = key_index(n, k);
            let j0 = if j < i { j } else { j + 1 };
            assert(n[j] == e[j0]);
            if j0 < i {
                assert(e[j0].0 != e[i].0);
            } else {
                assert(e[i].0 != e[j0].0);
            }
        }
    }
}

/// The name under which the directory for temporary files is looked up.
pub open spec fn tmpdir_key() -> Seq<u8> {
    seq![84u8, 77u8, 80u8, 68u8, 73u8, 82u8]
}

/// The directory used when that variable is not set.
pub open spec fn default_temp_dir() -> Seq<u8> {
    seq![47u8, 116u8, 109u8, 112u8]
}

/// The directory for temporary files: the value of `TMPDIR` when it is set,
/// else `/tmp`.
pub fn temp_dir(table: &EnvTable) -> (r: Vec<u8>)
    requires
        table.wf(),
    ensures
        r@ == match lookup(table.entries(), tmpdir_key()) {
            Some(v) => v,
            None => default_temp_dir(),
        },
{
    let key: Vec<u8> = vec![84u8, 77u8, 80u8, 68u8, 73u8, 82u8];
    assert(key@ =~= tmpdir_key());
    match getenv(table, key.as_slice()) {
        Ok(Some(v)) => v,
        _ => {
            let d: Vec<u8> = vec![47u8, 116u8, 109u8, 112u8];
            assert(d@ =~= default_temp_dir());
            d
        },
    }
}

} // verus!
