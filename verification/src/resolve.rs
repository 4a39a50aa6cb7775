//! The dependency-graph resolver.
//!
//! Starting from a top module name, the resolver follows instantiations
//! through the module index and collects the files transitively required to
//! build the top module. The traversal is depth first, expands each module
//! name at most once (so an instantiation cycle terminates), records a file
//! after the files of the modules it instantiates (bottom-up, in first-
//! completion order), adds each file path at most once, comparing paths by
//! value, and records each name that is instantiated but nowhere declared
//! (a blackbox) exactly once, instead of failing on it.

use vstd::prelude::*;
use vstd::set_lib::lemma_len_subset;

use crate::index::{
    build_module_map, has_recognized_ext, lemma_module_map_properties, spec_module_map,
    ModuleIndex,
};
use crate::scan::{copy_range, extract_instantiated_modules, insts_of, seq_views};
use crate::table::{name_set_view, NameSet};
use crate::SourceFile;

verus! {

/// The resolver's mathematical state: the module names expanded so far, the
/// file paths collected so far in order, and the undeclared names warned
/// about so far in order.
#[verifier::ext_equal]
pub struct RState {
    /// Names already expanded.
    pub visited: Set<Seq<u8>>,
    /// Paths of the files collected, in order, each at most once.
    pub files: Seq<Seq<u8>>,
    /// Undeclared names met, in order, each at most once.
    pub missing: Seq<Seq<u8>>,
}

/// The state before anything was resolved.
pub open spec fn init_rstate() -> RState {
    RState { visited: Set::empty(), files: Seq::empty(), missing: Seq::empty() }
}

/// One step of the traversal: expand `name` in state `st`. A name already
/// visited changes nothing; an unvisited name is marked visited, then an
/// undeclared one is recorded as missing, and a declared one has its file's
/// instantiated names expanded first and its file path recorded after them,
/// unless that path was already recorded. The fuel bounds the expansion
/// depth; every run of the resolver hands in more fuel than the index has
/// names, so the bound is never hit.
pub open spec fn spec_dfs(
    files: Seq<SourceFile>,
    m: Map<Seq<u8>, usize>,
    name: Seq<u8>,
    st: RState,
    fuel: nat,
) -> RState
    decreases fuel, 0nat,
{
    if fuel == 0 || st.visited.contains(name) {
        st
    } else {
        let st1 = RState { visited: st.visited.insert(name), ..st };
        if !m.contains_key(name) {
            RState { missing: st1.missing.push(name), ..st1 }
        } else {
            let f = files[m[name] as int];
            let st2 = spec_dfs_children(files, m, insts_of(f.content@), st1, (fuel - 1) as nat);
            if st2.files.contains(f.path@) {
                st2
            } else {
                RState { files: st2.files.push(f.path@), ..st2 }
            }
        }
    }
}

/// Expand each of the names `cs` in order, threading the state through.
pub open spec fn spec_dfs_children(
    files: Seq<SourceFile>,
    m: Map<Seq<u8>, usize>,
    cs: Seq<Seq<u8>>,
    st: RState,
    fuel: nat,
) -> RState
    decreases fuel, cs.len(),
{
    if cs.len() == 0 {
        st
    } else {
        spec_dfs_children(files, m, cs.drop_first(), spec_dfs(files, m, cs[0], st, fuel), fuel)
    }
}

/// The result of resolving `top` against a project: the traversal above,
/// started in the empty state with enough fuel to expand every indexed name.
pub open spec fn spec_resolve(files: Seq<SourceFile>, m: Map<Seq<u8>, usize>, top: Seq<u8>) -> RState {
    spec_dfs(files, m, top, init_rstate(), m.dom().len() + 1)
}

/// How many indexed names are not yet in `visited`.
pub open spec fn unvisited_count(m: Map<Seq<u8>, usize>, visited: Set<Seq<u8>>) -> nat {
    m.dom().difference(visited).len()
}

/// A sequence extended by one element holds exactly the old elements and
/// the new one.
proof fn lemma_push_contains(s: Seq<Seq<u8>>, x: Seq<u8>, p: Seq<u8>)
    ensures
        s.push(x).contains(p) <==> (s.contains(p) || p == x),
{
    if s.contains(p) {
        let i = choose|i: int| 0 <= i < s.len() && s[i] == p;
        assert(s.push(x)[i] == p);
    }
    assert(s.push(x)[s.len() as int] == x);
    if s.push(x).contains(p) && p != x {
        let i = choose|i: int| 0 <= i < s.push(x).len() && s.push(x)[i] == p;
        assert(0 <= i < s.len());
        assert(s[i] == p);
    }
}

/// Pushing an element a sequence does not yet hold keeps it free of
/// duplicates.
proof fn lemma_nodup_push(s: Seq<Seq<u8>>, x: Seq<u8>)
    requires
        s.no_duplicates(),
        !s.contains(x),
    ensures
        s.push(x).no_duplicates(),
{
    assert forall|i: int, j: int|
        0 <= i < s.push(x).len() && 0 <= j < s.push(x).len() && i != j implies s.push(x)[i]
        != s.push(x)[j] by {
        if i == s.len() {
            if s.push(x)[j] == x {
                assert(s[j] == x);
                assert(s.contains(x));
            }
        } else if j == s.len() {
            if s.push(x)[i] == x {
                assert(s[i] == x);
                assert(s.contains(x));
            }
        }
    }
}

/// The traversal only grows the visited set and only appends to the file
/// list: every name visited before stays visited, every file recorded
/// before stays recorded.
proof fn lemma_dfs_mono(
    files: Seq<SourceFile>,
    m: Map<Seq<u8>, usize>,
    name: Seq<u8>,
    st: RState,
    fuel: nat,
)
    ensures
        st.visited.subset_of(spec_dfs(files, m, name, st, fuel).visited),
        forall|p: Seq<u8>|
            st.files.contains(p) ==> #[trigger] spec_dfs(files, m, name, st, fuel).files.contains(
                p,
            ),
    decreases fuel, 0nat,
{
    if fuel == 0 || st.visited.contains(name) {
    } else {
        let st1 = RState { visited: st.visited.insert(name), ..st };
        if !m.contains_key(name) {
        } else {
            let f = files[m[name] as int];
            let g = (fuel - 1) as nat;
            lemma_children_mono(files, m, insts_of(f.content@), st1, g);
            let st2 = spec_dfs_children(files, m, insts_of(f.content@), st1, g);
            if !st2.files.contains(f.path@) {
                assert forall|p: Seq<u8>| st.files.contains(p) implies spec_dfs(
                    files,
                    m,
                    name,
                    st,
                    fuel,
                ).files.contains(p) by {
                    assert(st2.files.contains(p));
                    lemma_push_contains(st2.files, f.path@, p);
                }
            }
        }
    }
}

/// As [`lemma_dfs_mono`], for a whole list of names.
proof fn lemma_children_mono(
    files: Seq<SourceFile>,
    m: Map<Seq<u8>, usize>,
    cs: Seq<Seq<u8>>,
    st: RState,
    fuel: nat,
)
    ensures
        st.visited.subset_of(spec_dfs_children(files, m, cs, st, fuel).visited),
        forall|p: Seq<u8>|
            st.files.contains(p) ==> #[trigger] spec_dfs_children(
                files,
                m,
                cs,
                st,
                fuel,
            ).files.contains(p),
    decreases fuel, cs.len(),
{
    if cs.len() == 0 {
    } else {
        lemma_dfs_mono(files, m, cs[0], st, fuel);
        let stx = spec_dfs(files, m, cs[0], st, fuel);
        lemma_children_mono(files, m, cs.drop_first(), stx, fuel);
    }
}

/// Processing a list of names and then one more is processing the list
/// extended by that name.
proof fn lemma_children_push(
    files: Seq<SourceFile>,
    m: Map<Seq<u8>, usize>,
    s: Seq<Seq<u8>>,
    x: Seq<u8>,
    st: RState,
    fuel: nat,
)
    ensures
        spec_dfs_children(files, m, s.push(x), st, fuel) == spec_dfs(
            files,
            m,
            x,
            spec_dfs_children(files, m, s, st, fuel),
            fuel,
        ),
    decreases s.len(),
{
    if s.len() == 0 {
        reveal_with_fuel(spec_dfs_children, 2);
        assert(s.push(x)[0] == x);
        assert(s.push(x).drop_first() =~= Seq::empty());
    } else {
        assert(s.push(x)[0] == s[0]);
        assert(s.push(x).drop_first() =~= s.drop_first().push(x));
        lemma_children_push(files, m, s.drop_first(), x, spec_dfs(files, m, s[0], st, fuel), fuel);
    }
}

/// Expanding one more indexed, unvisited name leaves strictly fewer indexed
/// names unvisited.
proof fn lemma_unvisited_strict(
    m: Map<Seq<u8>, usize>,
    base: Set<Seq<u8>>,
    big: Set<Seq<u8>>,
    x: Seq<u8>,
)
    requires
        m.dom().finite(),
        m.contains_key(x),
        !base.contains(x),
        base.insert(x).subset_of(big),
    ensures
        unvisited_count(m, big) < unvisited_count(m, base),
{
    let ds = m.dom().difference(base);
    let db = m.dom().difference(big);
    assert(ds.subset_of(m.dom()));
    lemma_len_subset(ds, m.dom());
    assert(ds.contains(x));
    assert(db.subset_of(ds.remove(x)));
    lemma_len_subset(db, ds.remove(x));
}

/// The resolver's working state: the visited-name set, the collected file
/// list with the set of its paths beside it for value-based deduplication,
/// and the names found undeclared.
pub struct ResolveState {
    /// Names already expanded.
    pub visited: NameSet,
    /// Paths already recorded, for the at-most-once check.
    pub added: NameSet,
    /// The collected files, bottom-up.
    pub filelist: Vec<Vec<u8>>,
    /// The undeclared names met, in order.
    pub missing: Vec<Vec<u8>>,
}

impl ResolveState {
    /// The mathematical content of the state.
    pub open spec fn abs(self) -> RState {
        RState {
            visited: name_set_view(self.visited),
            files: seq_views(self.filelist@),
            missing: seq_views(self.missing@),
        }
    }

    /// The path set holds exactly the paths of the collected files.
    pub open spec fn inv(self) -> bool {
        forall|p: Seq<u8>|
            #[trigger] name_set_view(self.added).contains(p) <==> seq_views(
                self.filelist@,
            ).contains(p)
    }
}

/// Expands the module `module` in the given state: marks it visited,
/// records it as missing if the index does not know it, and otherwise
/// expands every name its file instantiates and then records its file,
/// skipping names already visited and paths already recorded. Behaves as
/// [`spec_dfs`] with ample fuel.
#[verifier::loop_isolation(false)]
pub fn dfs_module(module: &Vec<u8>, index: &ModuleIndex, st: ResolveState) -> (r: ResolveState)
    requires
        index.inv(),
        st.inv(),
    ensures
        r.inv(),
        forall|fuel: nat|
            fuel > unvisited_count(index.map_view(), st.abs().visited) ==> r.abs() == spec_dfs(
                index.files@,
                index.map_view(),
                module@,
                st.abs(),
                fuel,
            ),
    decreases unvisited_count(index.map_view(), name_set_view(st.visited)),
{
    let ghost m = index.map_view();
    let ghost fs = index.files@;
    let ghost st0 = st.abs();
    let ghost b0: nat = unvisited_count(m, st0.visited);
    let mut st = st;
    let module_c = copy_range(module, 0, module.len());
    proof {
        assert(module_c@ =~= module@);
    }
    let newly = st.visited.insert(module_c);
    if !newly {
        proof {
            assert(name_set_view(st.visited) =~= st0.visited);
            assert(st.abs() =~= st0);
        }
        return st;
    }
    let ghost st1 = st.abs();
    proof {
        assert(st1 =~= RState { visited: st0.visited.insert(module@), ..st0 });
    }
    match index.map.get(module) {
        None => {
            let module_c2 = copy_range(module, 0, module.len());
            proof {
                assert(module_c2@ =~= module@);
            }
            st.missing.push(module_c2);
            proof {
                assert(seq_views(st.missing@) =~= st1.missing.push(module@));
                assert(st.abs() =~= RState { missing: st1.missing.push(module@), ..st1 });
                assert forall|fuel: nat| fuel > b0 implies st.abs() == spec_dfs(
                    fs,
                    m,
                    module@,
                    st0,
                    fuel,
                ) by {
                    assert(spec_dfs(fs, m, module@, st0, fuel) =~= st.abs());
                }
            }
            st
        },
        Some(idx) => {
            proof {
                assert(m.contains_key(module@) && m[module@] == idx && idx < fs.len());
            }
            let subs = extract_instantiated_modules(&index.files[idx].content);
            let ghost cs = seq_views(subs@);
            proof {
                assert(cs == insts_of(fs[idx as int].content@));
                assert(cs.take(0) =~= Seq::empty());
            }
            let mut k: usize = 0;
            while k < subs.len()
                invariant
                    k <= subs@.len(),
                    cs == seq_views(subs@),
                    cs.len() == subs@.len(),
                    index.inv(),
                    st.inv(),
                    index.map_view() == m,
                    index.files@ == fs,
                    st1.visited.subset_of(st.abs().visited),
                    st1.visited == st0.visited.insert(module@),
                    st1.files == st0.files,
                    st1.missing == st0.missing,
                    m.contains_key(module@),
                    !st0.visited.contains(module@),
                    b0 == unvisited_count(m, st0.visited),
                    forall|g: nat|
                        g >= b0 ==> spec_dfs_children(fs, m, cs.take(k as int), st1, g)
                            == st.abs(),
                decreases subs@.len() - k,
            {
                let ghost pre = st.abs();
                proof {
                    lemma_unvisited_strict(m, st0.visited, pre.visited, module@);
                }
                st = dfs_module(&subs[k], index, st);
                proof {
                    assert(cs[k as int] == subs@[k as int]@);
                    assert forall|g: nat|
                        #![trigger spec_dfs_children(fs, m, cs.take(k + 1), st1, g)]
                        g >= b0 implies spec_dfs_children(fs, m, cs.take(k + 1), st1, g)
                        == st.abs() by {
                        assert(g > unvisited_count(m, pre.visited));
                        assert(st.abs() == spec_dfs(fs, m, cs[k as int], pre, g));
                        assert(cs.take(k + 1) =~= cs.take(k as int).push(cs[k as int]));
                        lemma_children_push(fs, m, cs.take(k as int), cs[k as int], st1, g);
                    }
                    assert(st.abs() == spec_dfs(fs, m, cs[k as int], pre, b0)) by {
                        assert(b0 > unvisited_count(m, pre.visited));
                    }
                    lemma_dfs_mono(fs, m, cs[k as int], pre, b0);
                    assert(st1.visited.subset_of(st.abs().visited));
                }
                k = k + 1;
            }
            proof {
                assert(cs.take(subs@.len() as int) =~= cs);
            }
            let ghost stl = st.abs();
            let path_c = copy_range(&index.files[idx].path, 0, index.files[idx].path.len());
            proof {
                assert(path_c@ =~= fs[idx as int].path@);
            }
            let newf = st.added.insert(path_c);
            if newf {
                let path_c2 = copy_range(&index.files[idx].path, 0, index.files[idx].path.len());
                proof {
                    assert(path_c2@ =~= fs[idx as int].path@);
                }
                st.filelist.push(path_c2);
            }
            proof {
                let p0 = fs[idx as int].path@;
                if newf {
                    assert(seq_views(st.filelist@) =~= stl.files.push(p0));
                    assert(st.abs() =~= RState { files: stl.files.push(p0), ..stl });
                    assert forall|p: Seq<u8>| #[trigger] name_set_view(st.added).contains(p)
                        <==> seq_views(st.filelist@).contains(p) by {
                        lemma_push_contains(stl.files, p0, p);
                    }
                } else {
                    assert(name_set_view(st.added) =~= stl.files.to_set().insert(p0));
                    assert(stl.files.contains(p0));
                    assert(st.abs() =~= stl);
                }
                assert forall|fuel: nat| fuel > b0 implies st.abs() == spec_dfs(
                    fs,
                    m,
                    module@,
                    st0,
                    fuel,
                ) by {
                    let g = (fuel - 1) as nat;
                    assert(g >= b0);
                    assert(spec_dfs_children(fs, m, cs, st1, g) == stl);
                    assert(spec_dfs(fs, m, module@, st0, fuel) == (if stl.files.contains(p0) {
                        stl
                    } else {
                        RState { files: stl.files.push(p0), ..stl }
                    }));
                    assert(st.abs() =~= spec_dfs(fs, m, module@, st0, fuel));
                }
            }
            st
        },
    }
}

/// Resolves the file list for the top module `top` against a built index:
/// the files required to build `top`, bottom-up and free of duplicate
/// paths, and the names instantiated along the way but declared nowhere,
/// each once, in the order met.
pub fn resolve_filelist(top: &Vec<u8>, index: &ModuleIndex) -> (r: (Vec<Vec<u8>>, Vec<Vec<u8>>))
    requires
        index.inv(),
    ensures
        seq_views(r.0@) == spec_resolve(index.files@, index.map_view(), top@).files,
        seq_views(r.1@) == spec_resolve(index.files@, index.map_view(), top@).missing,
        seq_views(r.0@).no_duplicates(),
        seq_views(r.1@).no_duplicates(),
{
    proof {
        lemma_resolve_no_duplicates(index.files@, index.map_view(), top@);
    }
    let st = ResolveState {
        visited: NameSet::new(),
        added: NameSet::new(),
        filelist: Vec::new(),
        missing: Vec::new(),
    };
    proof {
        assert(seq_views(st.filelist@) =~= Seq::empty());
        assert(seq_views(st.missing@) =~= Seq::empty());
        assert(st.abs() =~= init_rstate());
        assert(st.inv());
    }
    let st = dfs_module(top, index, st);
    proof {
        let m = index.map_view();
        assert(m.dom().difference(Set::empty()) =~= m.dom());
        assert(st.abs() == spec_dfs(index.files@, m, top@, init_rstate(), m.dom().len() + 1));
    }
    (st.filelist, st.missing)
}

/// A resolver state in good standing: the file list and the missing list
/// are free of duplicates, and the missing list holds exactly the visited
/// names the index does not know.
pub open spec fn rstate_ok(m: Map<Seq<u8>, usize>, st: RState) -> bool {
    &&& st.files.no_duplicates()
    &&& st.missing.no_duplicates()
    &&& st.missing.to_set() == st.visited.difference(m.dom())
}

proof fn lemma_dfs_ok(
    files: Seq<SourceFile>,
    m: Map<Seq<u8>, usize>,
    name: Seq<u8>,
    st: RState,
    fuel: nat,
)
    requires
        rstate_ok(m, st),
    ensures
        rstate_ok(m, spec_dfs(files, m, name, st, fuel)),
    decreases fuel, 0nat,
{
    if fuel == 0 || st.visited.contains(name) {
    } else {
        let st1 = RState { visited: st.visited.insert(name), ..st };
        if !m.contains_key(name) {
            let res = RState { missing: st1.missing.push(name), ..st1 };
            assert(!st.missing.contains(name)) by {
                if st.missing.contains(name) {
                    assert(st.missing.to_set().contains(name));
                }
            }
            lemma_nodup_push(st.missing, name);
            assert forall|p: Seq<u8>| #[trigger] res.missing.to_set().contains(p)
                <==> res.visited.difference(m.dom()).contains(p) by {
                lemma_push_contains(st.missing, name, p);
                assert(res.missing.to_set().contains(p) == res.missing.contains(p));
                assert(st.missing.to_set().contains(p) == st.missing.contains(p));
                assert(st.missing.to_set().contains(p) == st.visited.difference(m.dom()).contains(
                    p,
                ));
            }
            assert(res.missing.to_set() =~= res.visited.difference(m.dom()));
        } else {
            assert(st1.visited.difference(m.dom()) =~= st.visited.difference(m.dom()));
            assert(rstate_ok(m, st1));
            let g = (fuel - 1) as nat;
            let f = files[m[name] as int];
            lemma_children_ok(files, m, insts_of(f.content@), st1, g);
            let st2 = spec_dfs_children(files, m, insts_of(f.content@), st1, g);
            if !st2.files.contains(f.path@) {
                lemma_nodup_push(st2.files, f.path@);
            }
        }
    }
}

proof fn lemma_children_ok(
    files: Seq<SourceFile>,
    m: Map<Seq<u8>, usize>,
    cs: Seq<Seq<u8>>,
    st: RState,
    fuel: nat,
)
    requires
        rstate_ok(m, st),
    ensures
        rstate_ok(m, spec_dfs_children(files, m, cs, st, fuel)),
    decreases fuel, cs.len(),
{
    if cs.len() == 0 {
    } else {
        lemma_dfs_ok(files, m, cs[0], st, fuel);
        lemma_children_ok(files, m, cs.drop_first(), spec_dfs(files, m, cs[0], st, fuel), fuel);
    }
}

/// Expanding a list of names, with fuel to spare, leaves every one of them
/// visited.
proof fn lemma_children_visited(
    files: Seq<SourceFile>,
    m: Map<Seq<u8>, usize>,
    cs: Seq<Seq<u8>>,
    st: RState,
    fuel: nat,
)
    requires
        fuel >= 1,
    ensures
        forall|i: int|
            0 <= i < cs.len() ==> #[trigger] spec_dfs_children(
                files,
                m,
                cs,
                st,
                fuel,
            ).visited.contains(cs[i]),
    decreases cs.len(),
{
    if cs.len() > 0 {
        let stx = spec_dfs(files, m, cs[0], st, fuel);
        assert(stx.visited.contains(cs[0])) by {
            if !st.visited.contains(cs[0]) {
                let st1 = RState { visited: st.visited.insert(cs[0]), ..st };
                if m.contains_key(cs[0]) {
                    let f = files[m[cs[0]] as int];
                    lemma_children_mono(files, m, insts_of(f.content@), st1, (fuel - 1) as nat);
                }
            }
        }
        let rest = spec_dfs_children(files, m, cs.drop_first(), stx, fuel);
        lemma_children_visited(files, m, cs.drop_first(), stx, fuel);
        lemma_children_mono(files, m, cs.drop_first(), stx, fuel);
        assert forall|i: int| 0 <= i < cs.len() implies #[trigger] spec_dfs_children(
            files,
            m,
            cs,
            st,
            fuel,
        ).visited.contains(cs[i]) by {
            if i == 0 {
                assert(stx.visited.subset_of(rest.visited));
            } else {
                assert(cs.drop_first()[i - 1] == cs[i]);
            }
        }
    }
}

/// Every collected file path is the path of a file the index binds some
/// name to.
pub open spec fn indexed_path(files: Seq<SourceFile>, m: Map<Seq<u8>, usize>, p: Seq<u8>) -> bool {
    exists|n: Seq<u8>| #[trigger] m.dom().contains(n) && files[m[n] as int].path@ == p
}

/// All paths of `ps` are paths of indexed files.
pub open spec fn files_from_index(
    files: Seq<SourceFile>,
    m: Map<Seq<u8>, usize>,
    ps: Seq<Seq<u8>>,
) -> bool {
    forall|p: Seq<u8>| #[trigger] ps.contains(p) ==> indexed_path(files, m, p)
}

proof fn lemma_dfs_from_index(
    files: Seq<SourceFile>,
    m: Map<Seq<u8>, usize>,
    name: Seq<u8>,
    st: RState,
    fuel: nat,
)
    requires
        files_from_index(files, m, st.files),
    ensures
        files_from_index(files, m, spec_dfs(files, m, name, st, fuel).files),
    decreases fuel, 0nat,
{
    if fuel == 0 || st.visited.contains(name) {
    } else {
        let st1 = RState { visited: st.visited.insert(name), ..st };
        if !m.contains_key(name) {
        } else {
            let g = (fuel - 1) as nat;
            let f = files[m[name] as int];
            lemma_children_from_index(files, m, insts_of(f.content@), st1, g);
            let st2 = spec_dfs_children(files, m, insts_of(f.content@), st1, g);
            if !st2.files.contains(f.path@) {
                let res = st2.files.push(f.path@);
                assert forall|p: Seq<u8>| #[trigger] res.contains(p) implies indexed_path(
                    files,
                    m,
                    p,
                ) by {
                    lemma_push_contains(st2.files, f.path@, p);
                    if p == f.path@ {
                        assert(m.dom().contains(name) && files[m[name] as int].path@ == p);
                    }
                }
            }
        }
    }
}

proof fn lemma_children_from_index(
    files: Seq<SourceFile>,
    m: Map<Seq<u8>, usize>,
    cs: Seq<Seq<u8>>,
    st: RState,
    fuel: nat,
)
    requires
        files_from_index(files, m, st.files),
    ensures
        files_from_index(files, m, spec_dfs_children(files, m, cs, st, fuel).files),
    decreases fuel, cs.len(),
{
    if cs.len() == 0 {
    } else {
        lemma_dfs_from_index(files, m, cs[0], st, fuel);
        lemma_children_from_index(
            files,
            m,
            cs.drop_first(),
            spec_dfs(files, m, cs[0], st, fuel),
            fuel,
        );
    }
}

/// Law: for every project, index and top module, the resolved file list
/// holds each path at most once, and the missing list each name at most
/// once.
pub proof fn lemma_resolve_no_duplicates(
    files: Seq<SourceFile>,
    m: Map<Seq<u8>, usize>,
    top: Seq<u8>,
)
    ensures
        spec_resolve(files, m, top).files.no_duplicates(),
        spec_resolve(files, m, top).missing.no_duplicates(),
{
    assert(rstate_ok(m, init_rstate())) by {
        assert(init_rstate().missing.to_set() =~= init_rstate().visited.difference(m.dom()));
    }
    lemma_dfs_ok(files, m, top, init_rstate(), m.dom().len() + 1);
}

/// Law: resolving a top module the index does not know yields no files and
/// exactly one missing name, the top module itself.
pub proof fn lemma_resolve_unknown_top(
    files: Seq<SourceFile>,
    m: Map<Seq<u8>, usize>,
    top: Seq<u8>,
)
    requires
        !m.contains_key(top),
    ensures
        spec_resolve(files, m, top).files.len() == 0,
        spec_resolve(files, m, top).missing.len() == 1,
        spec_resolve(files, m, top).missing[0] == top,
{
}

/// Law: a top module that instantiates an undeclared name resolves without
/// failing; the result holds the top module's own file, and the undeclared
/// name stands in the missing list, exactly once.
pub proof fn lemma_resolve_blackbox(
    files: Seq<SourceFile>,
    m: Map<Seq<u8>, usize>,
    top: Seq<u8>,
    x: Seq<u8>,
)
    requires
        m.dom().finite(),
        m.contains_key(top),
        insts_of(files[m[top] as int].content@).contains(x),
        !m.contains_key(x),
    ensures
        spec_resolve(files, m, top).files.contains(files[m[top] as int].path@),
        spec_resolve(files, m, top).missing.contains(x),
        spec_resolve(files, m, top).missing.no_duplicates(),
{
    let fuel = m.dom().len() + 1;
    let st1 = RState { visited: init_rstate().visited.insert(top), ..init_rstate() };
    let f = files[m[top] as int];
    let cs = insts_of(f.content@);
    let g = (fuel - 1) as nat;
    assert(m.dom().len() != 0);
    let st2 = spec_dfs_children(files, m, cs, st1, g);
    lemma_children_visited(files, m, cs, st1, g);
    let i = choose|i: int| 0 <= i < cs.len() && cs[i] == x;
    assert(st2.visited.contains(x));
    let res = spec_resolve(files, m, top);
    assert(res.visited == st2.visited && res.missing == st2.missing);
    assert(rstate_ok(m, init_rstate())) by {
        assert(init_rstate().missing.to_set() =~= init_rstate().visited.difference(m.dom()));
    }
    lemma_dfs_ok(files, m, top, init_rstate(), fuel);
    assert(res.missing.to_set().contains(x));
    if st2.files.contains(f.path@) {
    } else {
        assert(res.files[st2.files.len() as int] == f.path@);
    }
}

/// Law: every name in the missing list is one the index does not know —
/// the resolver never reports a declared module as missing, and so no file
/// is ever withheld on account of a warning.
pub proof fn lemma_missing_names_undeclared(
    files: Seq<SourceFile>,
    m: Map<Seq<u8>, usize>,
    top: Seq<u8>,
)
    ensures
        forall|i: int|
            0 <= i < spec_resolve(files, m, top).missing.len() ==> !m.contains_key(
                #[trigger] spec_resolve(files, m, top).missing[i],
            ),
{
    assert(rstate_ok(m, init_rstate())) by {
        assert(init_rstate().missing.to_set() =~= init_rstate().visited.difference(m.dom()));
    }
    lemma_dfs_ok(files, m, top, init_rstate(), m.dom().len() + 1);
    let res = spec_resolve(files, m, top);
    assert forall|i: int| 0 <= i < res.missing.len() implies !m.contains_key(
        #[trigger] res.missing[i],
    ) by {
        assert(res.missing.contains(res.missing[i]));
        assert(res.missing.to_set().contains(res.missing[i]));
    }
}

/// Law: every file the resolver ever returns is an HDL source file of the
/// project: a file without a recognized extension stands neither in the
/// module index nor in any resolved file list, whatever its text declares.
pub proof fn lemma_resolve_only_hdl_files(files: Seq<SourceFile>, top: Seq<u8>)
    requires
        files.len() <= usize::MAX,
    ensures
        forall|p: Seq<u8>|
            #[trigger] spec_resolve(files, spec_module_map(files), top).files.contains(p)
                ==> exists|i: int|
                #![trigger files[i]]
                0 <= i < files.len() && files[i].path@ == p && has_recognized_ext(p),
{
    let m = spec_module_map(files);
    lemma_module_map_properties(files);
    lemma_dfs_from_index(files, m, top, init_rstate(), m.dom().len() + 1);
    assert forall|p: Seq<u8>| #[trigger] spec_resolve(files, m, top).files.contains(p)
        implies exists|i: int|
        #![trigger files[i]]
        0 <= i < files.len() && files[i].path@ == p && has_recognized_ext(p) by {
        assert(indexed_path(files, m, p));
        let n = choose|n: Seq<u8>| #[trigger] m.dom().contains(n) && files[m[n] as int].path@ == p;
        assert(m.contains_key(n));
        let i = m[n] as int;
        assert(0 <= i < files.len() && files[i].path@ == p && has_recognized_ext(p));
    }
}

/// Law: the resolver is a function of the project, the index and the top
/// module alone; two runs on the same inputs return the same file sequence
/// and so the same file set.
pub proof fn lemma_resolver_idempotent(
    files: Seq<SourceFile>,
    m: Map<Seq<u8>, usize>,
    top: Seq<u8>,
    r1: RState,
    r2: RState,
)
    requires
        r1 == spec_resolve(files, m, top),
        r2 == spec_resolve(files, m, top),
    ensures
        r1 == r2,
        r1.files.to_set() == r2.files.to_set(),
{
}

/// Builds the module index of the given project files and resolves the top
/// module `top` against it, in one call: the paths of the files needed to
/// build `top`, bottom-up and free of duplicates, and the names
/// instantiated along the way but declared nowhere, each once, in the order
/// met. An unknown top module yields no files and itself as the one missing
/// name.
pub fn resolve_project(files: Vec<SourceFile>, top: &Vec<u8>) -> (r: (Vec<Vec<u8>>, Vec<Vec<u8>>))
    ensures
        seq_views(r.0@) == spec_resolve(files@, spec_module_map(files@), top@).files,
        seq_views(r.1@) == spec_resolve(files@, spec_module_map(files@), top@).missing,
        seq_views(r.0@).no_duplicates(),
        seq_views(r.1@).no_duplicates(),
        !spec_module_map(files@).contains_key(top@) ==> r.0@.len() == 0 && r.1@.len() == 1,
{
    proof {
        if !spec_module_map(files@).contains_key(top@) {
            lemma_resolve_unknown_top(files@, spec_module_map(files@), top@);
        }
    }
    let index = build_module_map(files);
    resolve_filelist(top, &index)
}

} // verus!
