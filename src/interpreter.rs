//! Applying parsed commands to the store and turning what happened into
//! output lines.
use vstd::prelude::*;
use crate::grammar::{command, spec_command, Cmd, CmdView};
use crate::store::{
    delete_branch_done, destroyed_id, keeps_history, law_live_iff_reachable, lemma_ancestor_kept,
    lemma_table_in_range, lists, new_branch_done, new_commit_done, outcome, reachable, Database,
    DatabaseError, Event, EventView,
};

verus! {

/// What applying `c` to `pre` may do, giving `post` and the result `r`.
pub open spec fn applied(
    pre: Database,
    post: Database,
    c: CmdView,
    r: Result<Seq<Event>, (Seq<u8>, Option<nat>)>,
) -> bool {
    match c {
        CmdView::NewBranch(n, b, k) => new_branch_done(pre, post, n, b, k, r),
        CmdView::NewCommit(p, b) => new_commit_done(pre, post, p, b, r),
        CmdView::DeleteBranch(n) => delete_branch_done(pre, post, n, r),
        CmdView::Examine => post == pre && match r {
            Ok(evs) => lists(pre, evs),
            Err(_) => false,
        },
    }
}

/// Applies one command to the store.
pub fn execute_cmd(database: &mut Database, c: &Cmd) -> (r: Result<Vec<Event>, DatabaseError>)
    requires
        old(database).wf(),
    ensures
        final(database).wf(),
        applied(*old(database), *final(database), c@, outcome(r)),
{
    match c {
        Cmd::NewBranch(name, reference) => database.new_branch(
            name,
            &reference.base,
            reference.offset,
        ),
        Cmd::NewCommit(payload, branch) => database.new_commit(payload, branch),
        Cmd::DeleteBranch(name) => database.delete_branch(name),
        Cmd::Examine => Ok(database.examine()),
    }
}

/// ` -> '`
pub open spec fn arrow() -> Seq<u8> {
    seq![32u8, 45u8, 62u8, 32u8, 39u8]
}

/// ` deleted`
pub open spec fn deleted() -> Seq<u8> {
    seq![32u8, 100u8, 101u8, 108u8, 101u8, 116u8, 101u8, 100u8]
}

/// `Error`, the line that reports any failure.
pub open spec fn error_line() -> Seq<u8> {
    seq![69u8, 114u8, 114u8, 111u8, 114u8]
}

/// `'p'`
pub open spec fn quoted(p: Seq<u8>) -> Seq<u8> {
    seq![39u8] + p + seq![39u8]
}

/// ` 'p0' 'p1' ...`
pub open spec fn quoted_all(h: Seq<Seq<u8>>) -> Seq<u8>
    decreases h.len(),
{
    if h.len() == 0 {
        Seq::empty()
    } else {
        quoted_all(h.drop_last()) + seq![32u8] + quoted(h.last())
    }
}

/// The output line for an event: `name -> 'payload'`, `name deleted`,
/// `'payload' deleted`, or `name: 'head' 'parent' ... 'root'`.
pub open spec fn spec_render(e: EventView) -> Seq<u8> {
    match e {
        EventView::Bound(n, p) => n + arrow() + p + seq![39u8],
        EventView::BranchDeleted(n) => n + deleted(),
        EventView::CommitDestroyed(_, p) => quoted(p) + deleted(),
        EventView::Listing(n, h) => n + seq![58u8] + quoted_all(h),
    }
}

/// The output lines for the result of a command.
pub open spec fn report(r: Result<Seq<Event>, (Seq<u8>, Option<nat>)>) -> Seq<Seq<u8>> {
    match r {
        Ok(evs) => evs.map_values(|e: Event| spec_render(e@)),
        Err(_) => seq![error_line()],
    }
}

fn append(out: &mut Vec<u8>, b: &Vec<u8>)
    ensures
        final(out)@ == old(out)@ + b@,
{
    let ghost start = out@;
    let mut k: usize = 0;
    while k < b.len()
        invariant
            k <= b@.len(),
            out@ == start + b@.subrange(0, k as int),
        decreases b@.len() - k,
    {
        out.push(b[k]);
        k = k + 1;
        assert(out@ =~= start + b@.subrange(0, k as int));
    }
    assert(b@.subrange(0, b@.len() as int) =~= b@);
}

fn append_quoted(out: &mut Vec<u8>, p: &Vec<u8>)
    ensures
        final(out)@ == old(out)@ + quoted(p@),
{
    let ghost start = out@;
    out.push(39u8);
    append(out, p);
    out.push(39u8);
    assert(out@ =~= start + quoted(p@));
}

fn error_bytes() -> (r: Vec<u8>)
    ensures
        r@ == error_line(),
{
    let r: Vec<u8> = vec![69u8, 114u8, 114u8, 111u8, 114u8];
    assert(r@ =~= error_line());
    r
}

/// The output line for one event.
pub fn render(e: &Event) -> (r: Vec<u8>)
    ensures
        r@ == spec_render(e@),
{
    let mut out: Vec<u8> = Vec::new();
    match e {
        Event::Bound { name, payload } => {
            append(&mut out, name);
            let a: Vec<u8> = vec![32u8, 45u8, 62u8, 32u8, 39u8];
            assert(a@ =~= arrow());
            append(&mut out, &a);
            append(&mut out, payload);
            out.push(39u8);
            assert(out@ =~= spec_render(e@));
        },
        Event::BranchDeleted { name } => {
            append(&mut out, name);
            let d: Vec<u8> = vec![32u8, 100u8, 101u8, 108u8, 101u8, 116u8, 101u8, 100u8];
            assert(d@ =~= deleted());
            append(&mut out, &d);
            assert(out@ =~= spec_render(e@));
        },
        Event::CommitDestroyed { id, payload } => {
            append_quoted(&mut out, payload);
            let d: Vec<u8> = vec![32u8, 100u8, 101u8, 108u8, 101u8, 116u8, 101u8, 100u8];
            assert(d@ =~= deleted());
            append(&mut out, &d);
            assert(out@ =~= spec_render(e@));
        },
        Event::Listing { name, history } => {
            append(&mut out, name);
            out.push(58u8);
            let ghost start = out@;
            let ghost hv = history@.map_values(|h: Vec<u8>| h@);
            let mut k: usize = 0;
            while k < history.len()
                invariant
                    k <= history@.len(),
                    hv == history@.map_values(|h: Vec<u8>| h@),
                    out@ == start + quoted_all(hv.subrange(0, k as int)),
                decreases history@.len() - k,
            {
                out.push(32u8);
                append_quoted(&mut out, &history[k]);
                proof {
                    let sub = hv.subrange(0, k + 1);
                    assert(sub.drop_last() =~= hv.subrange(0, k as int));
                    assert(sub.last() == history@[k as int]@);
                }
                k = k + 1;
                assert(out@ =~= start + quoted_all(hv.subrange(0, k as int)));
            }
            assert(hv.subrange(0, k as int) =~= hv);
            assert(out@ =~= spec_render(e@));
        },
    }
    out
}

/// The output lines for the result of a command.
pub fn report_lines(r: &Result<Vec<Event>, DatabaseError>) -> (out: Vec<Vec<u8>>)
    ensures
        out@.map_values(|l: Vec<u8>| l@) == report(outcome(*r)),
{
    let mut out: Vec<Vec<u8>> = Vec::new();
    match r {
        Err(_) => {
            out.push(error_bytes());
            assert(out@.map_values(|l: Vec<u8>| l@) =~= report(outcome(*r)));
        },
        Ok(evs) => {
            let mut k: usize = 0;
            while k < evs.len()
                invariant
                    k <= evs@.len(),
                    out@.len() == k,
                    forall|j: int| 0 <= j < k ==> (#[trigger] out@[j])@ == spec_render(evs@[j]@),
                decreases evs@.len() - k,
            {
                out.push(render(&evs[k]));
                k = k + 1;
            }
            assert(out@.map_values(|l: Vec<u8>| l@) =~= report(outcome(*r)));
        },
    }
    out
}

/// Parses one line and applies it: the output lines it gives, or `Error`
/// alone where the line is no command or the command fails, in which case
/// the store is unchanged.
pub fn run_line(database: &mut Database, line: &[u8]) -> (out: Vec<Vec<u8>>)
    requires
        old(database).wf(),
    ensures
        final(database).wf(),
        match spec_command(line@) {
            None => *final(database) == *old(database) && out@.map_values(|l: Vec<u8>| l@)
                == seq![error_line()],
            Some(c) => exists|r: Result<Seq<Event>, (Seq<u8>, Option<nat>)>|
                applied(*old(database), *final(database), c, r) && out@.map_values(
                    |l: Vec<u8>| l@,
                ) == report(r),
        },
{
    match command(line) {
        None => {
            let mut out: Vec<Vec<u8>> = Vec::new();
            out.push(error_bytes());
            assert(out@.map_values(|l: Vec<u8>| l@) =~= seq![error_line()]);
            out
        },
        Some(c) => {
            let r = execute_cmd(database, &c);
            let out = report_lines(&r);
            assert(applied(*old(database), *database, c@, outcome(r)));
            out
        },
    }
}

/// The decimal digits of `n`.
pub open spec fn digits(n: nat) -> Seq<u8>
    decreases n,
{
    if n < 10 {
        seq![(48 + n) as u8]
    } else {
        digits(n / 10).push((48 + n % 10) as u8)
    }
}

/// `Branch ``name'' doesn't exist`, or `Branch ``name'' does not go back
/// k commits` (`commit` where `k` is 1).
pub open spec fn spec_message(e: (Seq<u8>, Option<nat>)) -> Seq<u8> {
    let lead = seq![66u8, 114u8, 97u8, 110u8, 99u8, 104u8, 32u8, 96u8, 96u8] + e.0;
    match e.1 {
        None => lead + seq![
            39u8, 39u8, 32u8, 100u8, 111u8, 101u8, 115u8, 110u8, 39u8, 116u8, 32u8, 101u8, 120u8,
            105u8, 115u8, 116u8,
        ],
        Some(k) => lead + seq![
            39u8, 39u8, 32u8, 100u8, 111u8, 101u8, 115u8, 32u8, 110u8, 111u8, 116u8, 32u8, 103u8,
            111u8, 32u8, 98u8, 97u8, 99u8, 107u8, 32u8,
        ] + digits(k) + seq![32u8, 99u8, 111u8, 109u8, 109u8, 105u8, 116u8] + if k == 1 {
            Seq::empty()
        } else {
            seq![115u8]
        },
    }
}

fn push_digits(out: &mut Vec<u8>, n: usize)
    ensures
        final(out)@ == old(out)@ + digits(n as nat),
    decreases n,
{
    if n >= 10 {
        push_digits(out, n / 10);
    }
    out.push(48u8 + (n % 10) as u8);
    proof {
        if n < 10 {
            assert(old(out)@ + digits(n as nat) =~= old(out)@.push((48 + n) as u8));
        } else {
            assert(old(out)@ + digits(n as nat) =~= (old(out)@ + digits((n / 10) as nat)).push(
                (48 + n % 10) as u8,
            ));
        }
    }
}

/// A sentence that says what went wrong.
pub fn message(e: &DatabaseError) -> (r: Vec<u8>)
    ensures
        r@ == spec_message(e.spec_view()),
{
    let mut out: Vec<u8> = vec![66u8, 114u8, 97u8, 110u8, 99u8, 104u8, 32u8, 96u8, 96u8];
    match e {
        DatabaseError::BranchDoesntExist(name) => {
            append(&mut out, name);
            let tail: Vec<u8> = vec![
                39u8, 39u8, 32u8, 100u8, 111u8, 101u8, 115u8, 110u8, 39u8, 116u8, 32u8, 101u8,
                120u8, 105u8, 115u8, 116u8,
            ];
            append(&mut out, &tail);
            assert(out@ =~= spec_message(e.spec_view()));
        },
        DatabaseError::CommitNotDeepEnough(name, k) => {
            append(&mut out, name);
            let mid: Vec<u8> = vec![
                39u8, 39u8, 32u8, 100u8, 111u8, 101u8, 115u8, 32u8, 110u8, 111u8, 116u8, 32u8,
                103u8, 111u8, 32u8, 98u8, 97u8, 99u8, 107u8, 32u8,
            ];
            append(&mut out, &mid);
            push_digits(&mut out, *k);
            let word: Vec<u8> = vec![32u8, 99u8, 111u8, 109u8, 109u8, 105u8, 116u8];
            append(&mut out, &word);
            if *k != 1 {
                out.push(115u8);
            }
            assert(out@ =~= spec_message(e.spec_view()));
        },
    }
    out
}

/// The branch that a command looks up: the base of a new branch, the branch
/// of a new commit, or the branch to delete.
pub open spec fn read_branch(c: CmdView) -> Option<Seq<u8>> {
    match c {
        CmdView::NewBranch(_, b, _) => Some(b),
        CmdView::NewCommit(_, b) => Some(b),
        CmdView::DeleteBranch(n) => Some(n),
        CmdView::Examine => None,
    }
}

/// The branch that a command binds anew: a new branch, or the branch that
/// receives a new commit.
pub open spec fn rebound_branch(c: CmdView) -> Option<Seq<u8>> {
    match c {
        CmdView::NewBranch(n, _, _) => Some(n),
        CmdView::NewCommit(_, b) => Some(b),
        _ => None,
    }
}

/// A command that looks up a branch not in the table fails with that name
/// and changes nothing.
pub proof fn law_unknown_branch(
    pre: Database,
    post: Database,
    c: CmdView,
    r: Result<Seq<Event>, (Seq<u8>, Option<nat>)>,
    b: Seq<u8>,
)
    requires
        applied(pre, post, c, r),
        read_branch(c) == Some(b),
        !pre.table().contains_key(b),
    ensures
        post == pre,
        r == Err::<Seq<Event>, (Seq<u8>, Option<nat>)>((b, None)),
{
}

/// Rebinding a branch by a new branch or a new commit destroys no commit
/// that another branch still reaches.
pub proof fn law_rebind_spares_reachable(
    pre: Database,
    post: Database,
    c: CmdView,
    r: Result<Seq<Event>, (Seq<u8>, Option<nat>)>,
    m: Seq<u8>,
    k: nat,
    x: nat,
)
    requires
        pre.wf(),
        post.wf(),
        applied(pre, post, c, r),
        rebound_branch(c) is Some,
        rebound_branch(c) != Some(m),
        pre.table().contains_key(m),
        pre.ancestor(pre.table()[m], k) == Some(x),
    ensures
        post.live(x),
        r is Ok ==> forall|j: int|
            0 <= j < r->Ok_0.len() ==> !((#[trigger] r->Ok_0[j]) is CommitDestroyed
                && destroyed_id(r->Ok_0[j]) == x),
{
    assert(reachable(pre, x));
    law_live_iff_reachable(pre, x);
    match c {
        CmdView::NewBranch(n, b, off) => {
            if r is Ok {
                let evs = r->Ok_0;
                assert(post.table()[m] == pre.table()[m]);
                lemma_table_in_range(pre, m);
                assert(keeps_history(pre, post));
                lemma_ancestor_kept(pre, post, pre.table()[m], k);
                assert(post.ancestor(post.table()[m], k) == Some(x));
                assert(reachable(post, x));
                law_live_iff_reachable(post, x);
                assert forall|j: int| 0 <= j < evs.len() implies !((#[trigger] evs[j]) is CommitDestroyed
                    && destroyed_id(evs[j]) == x) by {
                    if j > 0 {
                        assert(evs[j] == evs.drop_first()[j - 1]);
                    }
                }
            }
        },
        _ => {},
    }
}

} // verus!
