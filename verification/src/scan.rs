//! Line-oriented scanning of HDL source text.
//!
//! A file's content is a byte string. A module declaration is a line that,
//! after optional leading whitespace, carries the keyword `module` followed
//! by optional whitespace and an identifier. An instantiation is a line
//! that, after optional leading whitespace, carries an identifier (the type
//! of the instantiated module), an optional parameter-override clause
//! `# ( ... )` whose body holds no semicolon, then whitespace, a second
//! identifier (the instance name) and an opening parenthesis. Matching is a
//! per-line structural heuristic, not a grammar: an instantiation split
//! across lines is missed, and a line that happens to have the same shape is
//! reported. Identifiers and whitespace are ASCII.

use vstd::prelude::*;

verus! {

/// Whitespace, within a line.
pub open spec fn is_space(b: u8) -> bool {
    b == 32 || b == 9 || b == 13 || b == 11 || b == 12
}

/// A byte that may start an identifier: a letter or an underscore.
pub open spec fn is_ident_start(b: u8) -> bool {
    (97 <= b && b <= 122) || (65 <= b && b <= 90) || b == 95
}

/// A byte that may continue an identifier: a letter, a digit or an
/// underscore.
pub open spec fn is_ident_byte(b: u8) -> bool {
    is_ident_start(b) || (48 <= b && b <= 57)
}

/// The first position at or after `i` whose byte is not whitespace, or the
/// line's length if all of the rest is whitespace.
pub open spec fn skip_ws(l: Seq<u8>, i: int) -> int
    decreases l.len() - i,
{
    if i < 0 || i >= l.len() {
        l.len() as int
    } else if is_space(l[i]) {
        skip_ws(l, i + 1)
    } else {
        i
    }
}

/// The first position at or after `i` whose byte cannot continue an
/// identifier, or the line's length if the identifier runs to its end.
pub open spec fn ident_end(l: Seq<u8>, i: int) -> int
    decreases l.len() - i,
{
    if i < 0 || i >= l.len() {
        l.len() as int
    } else if is_ident_byte(l[i]) {
        ident_end(l, i + 1)
    } else {
        i
    }
}

fn is_space_x(b: u8) -> (r: bool)
    ensures
        r == is_space(b),
{
    b == 32 || b == 9 || b == 13 || b == 11 || b == 12
}

fn is_ident_start_x(b: u8) -> (r: bool)
    ensures
        r == is_ident_start(b),
{
    (97 <= b && b <= 122) || (65 <= b && b <= 90) || b == 95
}

fn is_ident_byte_x(b: u8) -> (r: bool)
    ensures
        r == is_ident_byte(b),
{
    is_ident_start_x(b) || (48 <= b && b <= 57)
}

fn skip_ws_x(l: &Vec<u8>, i: usize) -> (r: usize)
    requires
        i <= l@.len(),
    ensures
        r == skip_ws(l@, i as int),
        i <= r <= l@.len(),
{
    let mut j: usize = i;
    while j < l.len() && is_space_x(l[j])
        invariant
            i <= j <= l@.len(),
            skip_ws(l@, i as int) == skip_ws(l@, j as int),
        decreases l@.len() - j,
    {
        j = j + 1;
    }
    j
}

fn ident_end_x(l: &Vec<u8>, i: usize) -> (r: usize)
    requires
        i <= l@.len(),
    ensures
        r == ident_end(l@, i as int),
        i <= r <= l@.len(),
{
    let mut j: usize = i;
    while j < l.len() && is_ident_byte_x(l[j])
        invariant
            i <= j <= l@.len(),
            ident_end(l@, i as int) == ident_end(l@, j as int),
        decreases l@.len() - j,
    {
        j = j + 1;
    }
    j
}

/// The position of the first newline at or after `i`, or the content's
/// length if there is none.
pub open spec fn find_nl(c: Seq<u8>, i: int) -> int
    decreases c.len() - i,
{
    if i < 0 || i >= c.len() {
        c.len() as int
    } else if c[i] == 10 {
        i
    } else {
        find_nl(c, i + 1)
    }
}

proof fn lemma_find_nl_bounds(c: Seq<u8>, i: int)
    requires
        0 <= i <= c.len(),
    ensures
        i <= find_nl(c, i) <= c.len(),
    decreases c.len() - i,
{
    if i < c.len() && c[i] != 10 {
        lemma_find_nl_bounds(c, i + 1);
    }
}

/// The lines of `c` from position `i` on, split at newline bytes; the
/// newlines themselves belong to no line. One more line than newlines, so a
/// trailing newline is followed by an empty last line.
pub open spec fn lines_from(c: Seq<u8>, i: int) -> Seq<Seq<u8>>
    decreases c.len() - i,
    via lines_from_decreases
{
    let k = find_nl(c, i);
    if k >= c.len() {
        seq![c.subrange(i, c.len() as int)]
    } else {
        seq![c.subrange(i, k)] + lines_from(c, k + 1)
    }
}

#[via_fn]
proof fn lines_from_decreases(c: Seq<u8>, i: int) {
    if 0 <= i <= c.len() {
        lemma_find_nl_bounds(c, i);
    }
}

/// The lines of a file's content.
pub open spec fn lines_of(c: Seq<u8>) -> Seq<Seq<u8>> {
    lines_from(c, 0)
}

/// The views of a vector of byte vectors.
pub open spec fn seq_views(s: Seq<Vec<u8>>) -> Seq<Seq<u8>> {
    s.map_values(|v: Vec<u8>| v@)
}

/// The keyword `module` stands in `l` at position `j`.
pub open spec fn kw_module_at(l: Seq<u8>, j: int) -> bool {
    &&& j + 6 <= l.len()
    &&& l[j] == 109
    &&& l[j + 1] == 111
    &&& l[j + 2] == 100
    &&& l[j + 3] == 117
    &&& l[j + 4] == 108
    &&& l[j + 5] == 101
}

/// The name a line declares: after optional leading whitespace, the keyword
/// `module`, optional whitespace and an identifier, whose longest run is the
/// name. `None` for a line of any other shape.
pub open spec fn line_decl(l: Seq<u8>) -> Option<Seq<u8>> {
    let j = skip_ws(l, 0);
    if kw_module_at(l, j) {
        let k = skip_ws(l, j + 6);
        if k < l.len() && is_ident_start(l[k]) {
            Some(l.subrange(k, ident_end(l, k + 1)))
        } else {
            None
        }
    } else {
        None
    }
}

/// At position `k` of `l`: an identifier, optional whitespace and an opening
/// parenthesis — the instance name and the start of its connection list.
pub open spec fn ident_paren_at(l: Seq<u8>, k: int) -> bool {
    &&& k < l.len()
    &&& is_ident_start(l[k])
    &&& {
        let k2 = skip_ws(l, ident_end(l, k + 1));
        k2 < l.len() && l[k2] == 40
    }
}

/// After the type identifier ending at `e`: whitespace, then the instance
/// name and its opening parenthesis.
pub open spec fn direct_tail(l: Seq<u8>, e: int) -> bool {
    let k = skip_ws(l, e);
    k > e && ident_paren_at(l, k)
}

/// No semicolon in `l` at the positions from `a` (inclusive) to `b`
/// (exclusive).
pub open spec fn no_semi(l: Seq<u8>, a: int, b: int) -> bool {
    forall|t: int| a <= t < b ==> l[t] != 59
}

/// After the closing parenthesis of a parameter clause at `q`: whitespace,
/// then the instance name and its opening parenthesis.
pub open spec fn close_tail(l: Seq<u8>, q: int) -> bool {
    let k = skip_ws(l, q + 1);
    k > q + 1 && ident_paren_at(l, k)
}

/// After the type identifier ending at `e`: optional whitespace, `#`,
/// optional whitespace, a parenthesized parameter clause holding no
/// semicolon, then whitespace, the instance name and its opening
/// parenthesis.
pub open spec fn param_tail(l: Seq<u8>, e: int) -> bool {
    let h = skip_ws(l, e);
    &&& h < l.len()
    &&& l[h] == 35
    &&& {
        let p = skip_ws(l, h + 1);
        &&& p < l.len()
        &&& l[p] == 40
        &&& exists|q: int|
            p < q < l.len() && l[q] == 41 && no_semi(l, p + 1, q) && close_tail(l, q)
    }
}

/// The type name a line instantiates: after optional leading whitespace, an
/// identifier, an optional `# ( ... )` parameter clause, whitespace, a
/// second identifier and an opening parenthesis. `None` for a line of any
/// other shape.
pub open spec fn line_inst(l: Seq<u8>) -> Option<Seq<u8>> {
    let j = skip_ws(l, 0);
    if j < l.len() && is_ident_start(l[j]) {
        let e = ident_end(l, j + 1);
        if direct_tail(l, e) || param_tail(l, e) {
            Some(l.subrange(j, e))
        } else {
            None
        }
    } else {
        None
    }
}

/// The names the given lines declare, in line order.
pub open spec fn decls_of_lines(ls: Seq<Seq<u8>>) -> Seq<Seq<u8>>
    decreases ls.len(),
{
    if ls.len() == 0 {
        Seq::empty()
    } else {
        let rest = decls_of_lines(ls.drop_last());
        match line_decl(ls.last()) {
            Some(n) => rest.push(n),
            None => rest,
        }
    }
}

/// The names a file's content declares, in line order.
pub open spec fn decls_of(c: Seq<u8>) -> Seq<Seq<u8>> {
    decls_of_lines(lines_of(c))
}

/// The type names the given lines instantiate, in line order.
pub open spec fn insts_of_lines(ls: Seq<Seq<u8>>) -> Seq<Seq<u8>>
    decreases ls.len(),
{
    if ls.len() == 0 {
        Seq::empty()
    } else {
        let rest = insts_of_lines(ls.drop_last());
        match line_inst(ls.last()) {
            Some(n) => rest.push(n),
            None => rest,
        }
    }
}

/// The type names a file's content instantiates, in line order.
pub open spec fn insts_of(c: Seq<u8>) -> Seq<Seq<u8>> {
    insts_of_lines(lines_of(c))
}

/// The bytes of `l` from `a` (inclusive) to `b` (exclusive), as a fresh
/// vector.
pub(crate) fn copy_range(l: &Vec<u8>, a: usize, b: usize) -> (r: Vec<u8>)
    requires
        a <= b <= l@.len(),
    ensures
        r@ == l@.subrange(a as int, b as int),
{
    let mut r: Vec<u8> = Vec::new();
    let mut j: usize = a;
    while j < b
        invariant
            a <= j <= b <= l@.len(),
            r@ == l@.subrange(a as int, j as int),
        decreases b - j,
    {
        let x = l[j];
        r.push(x);
        j = j + 1;
        proof {
            assert(l@.subrange(a as int, j as int) =~= l@.subrange(a as int, j - 1).push(x));
        }
    }
    r
}

fn find_nl_x(c: &Vec<u8>, i: usize) -> (r: usize)
    requires
        i <= c@.len(),
    ensures
        r == find_nl(c@, i as int),
        i <= r <= c@.len(),
{
    let mut j: usize = i;
    while j < c.len() && c[j] != 10
        invariant
            i <= j <= c@.len(),
            find_nl(c@, i as int) == find_nl(c@, j as int),
        decreases c@.len() - j,
    {
        j = j + 1;
    }
    j
}

/// The lines of a file's content, split at newline bytes.
pub fn split_lines(c: &Vec<u8>) -> (r: Vec<Vec<u8>>)
    ensures
        seq_views(r@) == lines_of(c@),
{
    let mut out: Vec<Vec<u8>> = Vec::new();
    let mut pos: usize = 0;
    let mut done: bool = false;
    proof {
        assert(lines_of(c@) =~= seq_views(out@) + lines_from(c@, 0));
    }
    while !done
        invariant
            pos <= c@.len(),
            !done ==> lines_of(c@) == seq_views(out@) + lines_from(c@, pos as int),
            done ==> seq_views(out@) == lines_of(c@),
        decreases c@.len() - pos + (if done {
            0int
        } else {
            1int
        }),
    {
        let k = find_nl_x(c, pos);
        let line = copy_range(c, pos, k);
        let ghost prev = seq_views(out@);
        out.push(line);
        proof {
            assert(seq_views(out@) =~= prev.push(line@));
        }
        if k < c.len() {
            proof {
                assert(prev + lines_from(c@, pos as int) =~= prev.push(line@) + lines_from(
                    c@,
                    k + 1,
                ));
            }
            pos = k + 1;
        } else {
            proof {
                assert(prev + lines_from(c@, pos as int) =~= prev.push(line@));
            }
            done = true;
        }
    }
    out
}

fn ident_paren_at_x(l: &Vec<u8>, k: usize) -> (r: bool)
    requires
        k <= l@.len(),
    ensures
        r == ident_paren_at(l@, k as int),
{
    if k < l.len() && is_ident_start_x(l[k]) {
        let e2 = ident_end_x(l, k + 1);
        let k2 = skip_ws_x(l, e2);
        k2 < l.len() && l[k2] == 40
    } else {
        false
    }
}

fn direct_tail_x(l: &Vec<u8>, e: usize) -> (r: bool)
    requires
        e <= l@.len(),
    ensures
        r == direct_tail(l@, e as int),
{
    let k = skip_ws_x(l, e);
    k > e && ident_paren_at_x(l, k)
}

fn close_tail_x(l: &Vec<u8>, q: usize) -> (r: bool)
    requires
        q < l@.len(),
    ensures
        r == close_tail(l@, q as int),
{
    let n = l.len();
    assert(q < n);
    let k = skip_ws_x(l, q + 1);
    k > q + 1 && ident_paren_at_x(l, k)
}

fn find_param_close(l: &Vec<u8>, p: usize) -> (r: bool)
    requires
        p < l@.len(),
    ensures
        r == exists|q: int|
            p < q < l@.len() && l@[q] == 41 && no_semi(l@, p + 1, q) && close_tail(l@, q),
{
    let n = l.len();
    assert(p < n);
    let mut q: usize = p + 1;
    while q < l.len()
        invariant
            p < q <= l@.len(),
            no_semi(l@, p + 1, q as int),
            forall|t: int|
                p < t < q ==> !(l@[t] == 41 && no_semi(l@, p + 1, t) && close_tail(l@, t)),
        decreases l@.len() - q,
    {
        let b = l[q];
        if b == 59 {
            proof {
                assert forall|t: int|
                    p < t < l@.len() && l@[t] == 41 && no_semi(l@, p + 1, t) implies !close_tail(
                    l@,
                    t,
                ) by {
                    if t > q {
                        assert(l@[q as int] == 59);
                        assert(!no_semi(l@, p + 1, t));
                    }
                }
            }
            return false;
        }
        if b == 41 && close_tail_x(l, q) {
            proof {
                assert(p < q < l@.len() && l@[q as int] == 41 && no_semi(l@, p + 1, q as int)
                    && close_tail(l@, q as int));
            }
            return true;
        }
        q = q + 1;
    }
    false
}

fn param_tail_x(l: &Vec<u8>, e: usize) -> (r: bool)
    requires
        e <= l@.len(),
    ensures
        r == param_tail(l@, e as int),
{
    let h = skip_ws_x(l, e);
    if h < l.len() && l[h] == 35 {
        let p = skip_ws_x(l, h + 1);
        if p < l.len() && l[p] == 40 {
            find_param_close(l, p)
        } else {
            false
        }
    } else {
        false
    }
}

/// The name the given line declares, if it has the shape of a module
/// declaration.
pub fn line_decl_x(l: &Vec<u8>) -> (r: Option<Vec<u8>>)
    ensures
        match r {
            Some(n) => line_decl(l@) == Some(n@),
            None => line_decl(l@) is None,
        },
{
    let j = skip_ws_x(l, 0);
    if l.len() - j >= 6 && l[j] == 109 && l[j + 1] == 111 && l[j + 2] == 100 && l[j + 3] == 117
        && l[j + 4] == 108 && l[j + 5] == 101 {
        let k = skip_ws_x(l, j + 6);
        if k < l.len() && is_ident_start_x(l[k]) {
            let e = ident_end_x(l, k + 1);
            Some(copy_range(l, k, e))
        } else {
            None
        }
    } else {
        None
    }
}

/// The type name the given line instantiates, if it has the shape of an
/// instantiation.
pub fn line_inst_x(l: &Vec<u8>) -> (r: Option<Vec<u8>>)
    ensures
        match r {
            Some(n) => line_inst(l@) == Some(n@),
            None => line_inst(l@) is None,
        },
{
    let j = skip_ws_x(l, 0);
    if j < l.len() && is_ident_start_x(l[j]) {
        let e = ident_end_x(l, j + 1);
        if direct_tail_x(l, e) || param_tail_x(l, e) {
            Some(copy_range(l, j, e))
        } else {
            None
        }
    } else {
        None
    }
}

/// The names a file's content declares via `module` lines, in line order.
pub fn extract_module_decls(content: &Vec<u8>) -> (r: Vec<Vec<u8>>)
    ensures
        seq_views(r@) == decls_of(content@),
{
    let lines = split_lines(content);
    let ghost lv = seq_views(lines@);
    let mut out: Vec<Vec<u8>> = Vec::new();
    let mut i: usize = 0;
    proof {
        assert(lv.take(0) =~= Seq::empty());
    }
    while i < lines.len()
        invariant
            i <= lines@.len(),
            lv == lines_of(content@),
            lv == seq_views(lines@),
            lv.len() == lines@.len(),
            seq_views(out@) == decls_of_lines(lv.take(i as int)),
        decreases lines@.len() - i,
    {
        let ghost prev = seq_views(out@);
        match line_decl_x(&lines[i]) {
            Some(n) => {
                out.push(n);
                proof {
                    assert(seq_views(out@) =~= prev.push(n@));
                }
            },
            None => {},
        }
        proof {
            assert(lv.take(i + 1).drop_last() =~= lv.take(i as int));
            assert(lv.take(i + 1).last() == lines@[i as int]@);
        }
        i = i + 1;
    }
    proof {
        assert(lv.take(lines@.len() as int) =~= lv);
    }
    out
}

/// The type names a file's content instantiates, in line order. A name may
/// repeat; it is the resolver's business to visit each module once.
pub fn extract_instantiated_modules(content: &Vec<u8>) -> (r: Vec<Vec<u8>>)
    ensures
        seq_views(r@) == insts_of(content@),
{
    let lines = split_lines(content);
    let ghost lv = seq_views(lines@);
    let mut out: Vec<Vec<u8>> = Vec::new();
    let mut i: usize = 0;
    proof {
        assert(lv.take(0) =~= Seq::empty());
    }
    while i < lines.len()
        invariant
            i <= lines@.len(),
            lv == lines_of(content@),
            lv == seq_views(lines@),
            lv.len() == lines@.len(),
            seq_views(out@) == insts_of_lines(lv.take(i as int)),
        decreases lines@.len() - i,
    {
        let ghost prev = seq_views(out@);
        match line_inst_x(&lines[i]) {
            Some(n) => {
                out.push(n);
                proof {
                    assert(seq_views(out@) =~= prev.push(n@));
                }
            },
            None => {},
        }
        proof {
            assert(lv.take(i + 1).drop_last() =~= lv.take(i as int));
            assert(lv.take(i + 1).last() == lines@[i as int]@);
        }
        i = i + 1;
    }
    proof {
        assert(lv.take(lines@.len() as int) =~= lv);
    }
    out
}

} // verus!
