//! The command grammar: one line of bytes to one command.
use vstd::prelude::*;

verus! {

/// A class of bytes that a token is made of.
pub enum CharClass {
    /// The space character only (no tabs).
    Space,
    /// ASCII letters and digits.
    AlphaNum,
    /// ASCII digits.
    Digit,
    /// Anything but a single quote.
    NotQuote,
}

pub open spec fn in_class(k: CharClass, b: u8) -> bool {
    match k {
        CharClass::Space => b == 32,
        CharClass::AlphaNum => (48 <= b <= 57) || (65 <= b <= 90) || (97 <= b <= 122),
        CharClass::Digit => 48 <= b <= 57,
        CharClass::NotQuote => b != 39,
    }
}

/// The end of the longest run of bytes of class `k` that starts at `i`.
pub open spec fn run_end(s: Seq<u8>, i: int, k: CharClass) -> int
    decreases s.len() - i,
{
    if 0 <= i < s.len() && in_class(k, s[i]) {
        run_end(s, i + 1, k)
    } else {
        i
    }
}

/// `lit` stands in `s` at position `i`.
pub open spec fn has_lit(s: Seq<u8>, i: int, lit: Seq<u8>) -> bool {
    0 <= i && i + lit.len() <= s.len() && s.subrange(i, i + lit.len()) == lit
}

/// The value of a run of decimal digits.
pub open spec fn decimal(s: Seq<u8>) -> nat
    decreases s.len(),
{
    if s.len() == 0 {
        0
    } else {
        decimal(s.drop_last()) * 10 + (s.last() - 48) as nat
    }
}

/// The keyword `new`.
pub open spec fn kw_new() -> Seq<u8> {
    seq![110u8, 101u8, 119u8]
}

/// The keyword `branch`.
pub open spec fn kw_branch() -> Seq<u8> {
    seq![98u8, 114u8, 97u8, 110u8, 99u8, 104u8]
}

/// The keyword `delete`.
pub open spec fn kw_delete() -> Seq<u8> {
    seq![100u8, 101u8, 108u8, 101u8, 116u8, 101u8]
}

/// The keyword `commit`.
pub open spec fn kw_commit() -> Seq<u8> {
    seq![99u8, 111u8, 109u8, 109u8, 105u8, 116u8]
}

/// The keyword `examine`.
pub open spec fn kw_examine() -> Seq<u8> {
    seq![101u8, 120u8, 97u8, 109u8, 105u8, 110u8, 101u8]
}

/// The byte `~`, which introduces an ancestor offset.
pub const TILDE: u8 = 126;

/// The byte `'`, which delimits a commit payload.
pub const QUOTE: u8 = 39;

/// "The commit `offset` parents back from the head of `base`."
pub struct CommitReference {
    pub base: Vec<u8>,
    pub offset: usize,
}

/// A parsed command line.
pub enum Cmd {
    /// `new branch <name> <base>[~<offset>]`
    NewBranch(Vec<u8>, CommitReference),
    /// `new commit '<payload>' <branch>`
    NewCommit(Vec<u8>, Vec<u8>),
    /// `delete branch <name>`
    DeleteBranch(Vec<u8>),
    /// `examine`
    Examine,
}

/// What a command is, as plain values.
pub enum CmdView {
    NewBranch(Seq<u8>, Seq<u8>, nat),
    NewCommit(Seq<u8>, Seq<u8>),
    DeleteBranch(Seq<u8>),
    Examine,
}

impl View for Cmd {
    type V = CmdView;

    open spec fn view(&self) -> CmdView {
        match self {
            Cmd::NewBranch(n, r) => CmdView::NewBranch(n@, r.base@, r.offset as nat),
            Cmd::NewCommit(p, b) => CmdView::NewCommit(p@, b@),
            Cmd::DeleteBranch(n) => CmdView::DeleteBranch(n@),
            Cmd::Examine => CmdView::Examine,
        }
    }
}

/// `new branch <name> <base>[ ~ <offset>]` matching the whole of `s`.
pub open spec fn spec_new_branch(s: Seq<u8>) -> Option<CmdView> {
    let a = run_end(s, 0, CharClass::Space);
    let b = a + 3;
    let c = run_end(s, b, CharClass::Space);
    let d = c + 6;
    let e = run_end(s, d, CharClass::Space);
    let f = run_end(s, e, CharClass::AlphaNum);
    let g = run_end(s, f, CharClass::Space);
    let h = run_end(s, g, CharClass::AlphaNum);
    let t0 = run_end(s, h, CharClass::Space);
    let t1 = run_end(s, t0 + 1, CharClass::Space);
    let t2 = run_end(s, t1, CharClass::Digit);
    if has_lit(s, a, kw_new()) && c > b && has_lit(s, c, kw_branch()) && e > d && f > e && g > f
        && h > g {
        if h == s.len() {
            Some(CmdView::NewBranch(s.subrange(e, f), s.subrange(g, h), 0))
        } else if t0 < s.len() && s[t0] == TILDE && t2 > t1 && t2 == s.len() && decimal(
            s.subrange(t1, t2),
        ) <= usize::MAX {
            Some(CmdView::NewBranch(s.subrange(e, f), s.subrange(g, h), decimal(s.subrange(t1, t2))))
        } else {
            None
        }
    } else {
        None
    }
}

/// `delete branch <name>` matching the whole of `s`.
pub open spec fn spec_delete_branch(s: Seq<u8>) -> Option<CmdView> {
    let a = run_end(s, 0, CharClass::Space);
    let b = a + 6;
    let c = run_end(s, b, CharClass::Space);
    let d = c + 6;
    let e = run_end(s, d, CharClass::Space);
    let f = run_end(s, e, CharClass::AlphaNum);
    if has_lit(s, a, kw_delete()) && c > b && has_lit(s, c, kw_branch()) && e > d && f > e && f
        == s.len() {
        Some(CmdView::DeleteBranch(s.subrange(e, f)))
    } else {
        None
    }
}

/// `new commit '<payload>' <branch>` matching the whole of `s`.
pub open spec fn spec_new_commit(s: Seq<u8>) -> Option<CmdView> {
    let a = run_end(s, 0, CharClass::Space);
    let b = a + 3;
    let c = run_end(s, b, CharClass::Space);
    let d = c + 6;
    let e = run_end(s, d, CharClass::Space);
    let f = e + 1;
    let g = run_end(s, f, CharClass::NotQuote);
    let h = g + 1;
    let i = run_end(s, h, CharClass::Space);
    let j = run_end(s, i, CharClass::AlphaNum);
    if has_lit(s, a, kw_new()) && c > b && has_lit(s, c, kw_commit()) && e > d && e < s.len()
        && s[e] == QUOTE && g < s.len() && i > h && j > i && j == s.len() {
        Some(CmdView::NewCommit(s.subrange(f, g), s.subrange(i, j)))
    } else {
        None
    }
}

/// `examine` matching the whole of `s`.
pub open spec fn spec_examine(s: Seq<u8>) -> Option<CmdView> {
    let a = run_end(s, 0, CharClass::Space);
    if has_lit(s, a, kw_examine()) && a + 7 == s.len() {
        Some(CmdView::Examine)
    } else {
        None
    }
}

/// The command that a whole line denotes: the four forms are tried in turn.
pub open spec fn spec_command(s: Seq<u8>) -> Option<CmdView> {
    if spec_new_branch(s).is_some() {
        spec_new_branch(s)
    } else if spec_delete_branch(s).is_some() {
        spec_delete_branch(s)
    } else if spec_new_commit(s).is_some() {
        spec_new_commit(s)
    } else {
        spec_examine(s)
    }
}

fn class_has(k: &CharClass, b: u8) -> (r: bool)
    ensures
        r == in_class(*k, b),
{
    match k {
        CharClass::Space => b == 32,
        CharClass::AlphaNum => (48 <= b && b <= 57) || (65 <= b && b <= 90) || (97 <= b && b
            <= 122),
        CharClass::Digit => 48 <= b && b <= 57,
        CharClass::NotQuote => b != 39,
    }
}

/// Skips the run of bytes of class `k` that starts at `i`.
fn scan(s: &[u8], i: usize, k: CharClass) -> (j: usize)
    requires
        i <= s@.len(),
    ensures
        j == run_end(s@, i as int, k),
        i <= j <= s@.len() <= usize::MAX,
{
    let mut j: usize = i;
    let n: usize = s.len();
    while j < s.len() && class_has(&k, s[j])
        invariant
            i <= j <= s@.len() <= usize::MAX,
            run_end(s@, i as int, k) == run_end(s@, j as int, k),
        decreases s@.len() - j,
    {
        j = j + 1;
    }
    j
}

/// Tells whether `lit` stands in `s` at position `i`.
fn lit_at(s: &[u8], i: usize, lit: &Vec<u8>) -> (r: bool)
    ensures
        r == has_lit(s@, i as int, lit@),
{
    if i > s.len() || lit.len() > s.len() - i {
        return false;
    }
    let n: usize = s.len();
    let mut k: usize = 0;
    while k < lit.len()
        invariant
            n == s@.len(),
            i + lit@.len() <= s@.len(),
            k <= lit@.len(),
            forall|m: int| 0 <= m < k ==> s@[i + m] == lit@[m],
        decreases lit@.len() - k,
    {
        if s[i + k] != lit[k] {
            assert(s@.subrange(i as int, i + lit@.len())[k as int] != lit@[k as int]);
            return false;
        }
        k = k + 1;
    }
    assert(s@.subrange(i as int, i + lit@.len()) =~= lit@);
    true
}

/// A copy of `s[from..to]`.
fn copy_range(s: &[u8], from: usize, to: usize) -> (r: Vec<u8>)
    requires
        from <= to <= s@.len(),
    ensures
        r@ == s@.subrange(from as int, to as int),
{
    let mut r: Vec<u8> = Vec::new();
    let mut k: usize = from;
    while k < to
        invariant
            from <= k <= to <= s@.len(),
            r@ == s@.subrange(from as int, k as int),
        decreases to - k,
    {
        r.push(s[k]);
        k = k + 1;
        assert(r@ =~= s@.subrange(from as int, k as int));
    }
    r
}

proof fn lemma_decimal_grows(s: Seq<u8>, lo: int, mid: int, hi: int)
    requires
        0 <= lo <= mid <= hi <= s.len(),
    ensures
        decimal(s.subrange(lo, mid)) <= decimal(s.subrange(lo, hi)),
    decreases hi - mid,
{
    if mid < hi {
        lemma_decimal_grows(s, lo, mid, hi - 1);
        assert(s.subrange(lo, hi).drop_last() =~= s.subrange(lo, hi - 1));
    }
}

/// The value of the digits `s[from..to]`, or `None` where it does not fit in a `usize`.
fn parse_decimal(s: &[u8], from: usize, to: usize) -> (r: Option<usize>)
    requires
        from <= to <= s@.len(),
        forall|m: int| from <= m < to ==> in_class(CharClass::Digit, #[trigger] s@[m]),
    ensures
        r is Some <==> decimal(s@.subrange(from as int, to as int)) <= usize::MAX,
        r is Some ==> r->0 == decimal(s@.subrange(from as int, to as int)),
{
    let mut acc: usize = 0;
    let mut k: usize = from;
    while k < to
        invariant
            from <= k <= to <= s@.len(),
            forall|m: int| from <= m < to ==> in_class(CharClass::Digit, #[trigger] s@[m]),
            acc == decimal(s@.subrange(from as int, k as int)),
        decreases to - k,
    {
        let d: u8 = s[k] - 48;
        assert(s@.subrange(from as int, k + 1).drop_last() =~= s@.subrange(from as int, k as int));
        match acc.checked_mul(10) {
            None => {
                proof {
                    lemma_decimal_grows(s@, from as int, k + 1, to as int);
                }
                return None;
            },
            Some(t) => match t.checked_add(d as usize) {
                None => {
                    proof {
                        lemma_decimal_grows(s@, from as int, k + 1, to as int);
                    }
                    return None;
                },
                Some(v) => {
                    acc = v;
                },
            },
        }
        k = k + 1;
    }
    Some(acc)
}

fn keyword_new() -> (r: Vec<u8>)
    ensures
        r@ == kw_new(),
{
    let r: Vec<u8> = vec![110u8, 101u8, 119u8];
    assert(r@ =~= kw_new());
    r
}

fn keyword_branch() -> (r: Vec<u8>)
    ensures
        r@ == kw_branch(),
{
    let r: Vec<u8> = vec![98u8, 114u8, 97u8, 110u8, 99u8, 104u8];
    assert(r@ =~= kw_branch());
    r
}

fn keyword_delete() -> (r: Vec<u8>)
    ensures
        r@ == kw_delete(),
{
    let r: Vec<u8> = vec![100u8, 101u8, 108u8, 101u8, 116u8, 101u8];
    assert(r@ =~= kw_delete());
    r
}

fn keyword_commit() -> (r: Vec<u8>)
    ensures
        r@ == kw_commit(),
{
    let r: Vec<u8> = vec![99u8, 111u8, 109u8, 109u8, 105u8, 116u8];
    assert(r@ =~= kw_commit());
    r
}

fn keyword_examine() -> (r: Vec<u8>)
    ensures
        r@ == kw_examine(),
{
    let r: Vec<u8> = vec![101u8, 120u8, 97u8, 109u8, 105u8, 110u8, 101u8];
    assert(r@ =~= kw_examine());
    r
}

/// Parses `new branch <name> <base>[ ~ <offset>]`.
pub fn new_branch(s: &[u8]) -> (r: Option<Cmd>)
    ensures
        match r {
            Some(c) => spec_new_branch(s@) == Some(c@),
            None => spec_new_branch(s@) is None,
        },
{
    let a = scan(s, 0, CharClass::Space);
    if !lit_at(s, a, &keyword_new()) {
        return None;
    }
    let b = a + 3;
    let c = scan(s, b, CharClass::Space);
    if c == b || !lit_at(s, c, &keyword_branch()) {
        return None;
    }
    let d = c + 6;
    let e = scan(s, d, CharClass::Space);
    if e == d {
        return None;
    }
    let f = scan(s, e, CharClass::AlphaNum);
    if f == e {
        return None;
    }
    let g = scan(s, f, CharClass::Space);
    if g == f {
        return None;
    }
    let h = scan(s, g, CharClass::AlphaNum);
    if h == g {
        return None;
    }
    let name = copy_range(s, e, f);
    let base = copy_range(s, g, h);
    if h == s.len() {
        return Some(Cmd::NewBranch(name, CommitReference { base, offset: 0 }));
    }
    let t0 = scan(s, h, CharClass::Space);
    if t0 == s.len() || s[t0] != TILDE {
        return None;
    }
    let t1 = scan(s, t0 + 1, CharClass::Space);
    let t2 = scan(s, t1, CharClass::Digit);
    if t2 == t1 || t2 != s.len() {
        return None;
    }
    proof {
        lemma_run_in_class(s@, t1 as int, CharClass::Digit);
    }
    match parse_decimal(s, t1, t2) {
        None => None,
        Some(offset) => Some(Cmd::NewBranch(name, CommitReference { base, offset })),
    }
}

/// Parses `delete branch <name>`.
pub fn delete_branch(s: &[u8]) -> (r: Option<Cmd>)
    ensures
        match r {
            Some(c) => spec_delete_branch(s@) == Some(c@),
            None => spec_delete_branch(s@) is None,
        },
{
    let a = scan(s, 0, CharClass::Space);
    if !lit_at(s, a, &keyword_delete()) {
        return None;
    }
    let b = a + 6;
    let c = scan(s, b, CharClass::Space);
    if c == b || !lit_at(s, c, &keyword_branch()) {
        return None;
    }
    let d = c + 6;
    let e = scan(s, d, CharClass::Space);
    if e == d {
        return None;
    }
    let f = scan(s, e, CharClass::AlphaNum);
    if f == e || f != s.len() {
        return None;
    }
    Some(Cmd::DeleteBranch(copy_range(s, e, f)))
}

/// Parses `new commit '<payload>' <branch>`.
pub fn new_commit(s: &[u8]) -> (r: Option<Cmd>)
    ensures
        match r {
            Some(c) => spec_new_commit(s@) == Some(c@),
            None => spec_new_commit(s@) is None,
        },
{
    let a = scan(s, 0, CharClass::Space);
    if !lit_at(s, a, &keyword_new()) {
        return None;
    }
    let b = a + 3;
    let c = scan(s, b, CharClass::Space);
    if c == b || !lit_at(s, c, &keyword_commit()) {
        return None;
    }
    let d = c + 6;
    let e = scan(s, d, CharClass::Space);
    if e == d || e == s.len() || s[e] != QUOTE {
        return None;
    }
    let f = e + 1;
    let g = scan(s, f, CharClass::NotQuote);
    if g == s.len() {
        return None;
    }
    let h = g + 1;
    let i = scan(s, h, CharClass::Space);
    if i == h {
        return None;
    }
    let j = scan(s, i, CharClass::AlphaNum);
    if j == i || j != s.len() {
        return None;
    }
    Some(Cmd::NewCommit(copy_range(s, f, g), copy_range(s, i, j)))
}

/// Parses `examine`.
pub fn examine(s: &[u8]) -> (r: Option<Cmd>)
    ensures
        match r {
            Some(c) => spec_examine(s@) == Some(c@),
            None => spec_examine(s@) is None,
        },
{
    let a = scan(s, 0, CharClass::Space);
    if lit_at(s, a, &keyword_examine()) && a + 7 == s.len() {
        Some(Cmd::Examine)
    } else {
        None
    }
}

/// Parses one whole line into a command; `None` where the line is not one.
pub fn command(s: &[u8]) -> (r: Option<Cmd>)
    ensures
        match r {
            Some(c) => spec_command(s@) == Some(c@),
            None => spec_command(s@) is None,
        },
{
    let r = new_branch(s);
    if r.is_some() {
        return r;
    }
    let r = delete_branch(s);
    if r.is_some() {
        return r;
    }
    let r = new_commit(s);
    if r.is_some() {
        return r;
    }
    examine(s)
}

proof fn lemma_run_in_class(s: Seq<u8>, i: int, k: CharClass)
    requires
        0 <= i <= s.len(),
    ensures
        i <= run_end(s, i, k) <= s.len(),
        forall|m: int| i <= m < run_end(s, i, k) ==> in_class(k, #[trigger] s[m]),
    decreases s.len() - i,
{
    if i < s.len() && in_class(k, s[i]) {
        lemma_run_in_class(s, i + 1, k);
    }
}

} // verus!
