//! The module index: a map from each declared module name to the file that
//! declares it.
//!
//! Only files with a recognized extension take part. Scanning every file of
//! the project yields, per file, the names its `module` lines declare; the
//! index keeps, for each name, the first file (in the order the files were
//! handed in) that declares it, and silently drops later declarations of the
//! same name. A file is named by its position in the project's file list.

use vstd::prelude::*;

use crate::scan::{decls_of, extract_module_decls, seq_views};
use crate::table::{empty_name_map, name_map_view, NameMap};
use crate::SourceFile;

verus! {

/// The path names an HDL source file: it ends in `.v` (the standard
/// dialect) or `.sv` (the extended dialect).
pub open spec fn has_recognized_ext(p: Seq<u8>) -> bool {
    ||| (p.len() >= 2 && p[p.len() - 2] == 46 && p[p.len() - 1] == 118)
    ||| (p.len() >= 3 && p[p.len() - 3] == 46 && p[p.len() - 2] == 115 && p[p.len() - 1] == 118)
}

/// Whether the path ends in one of the two recognized HDL extensions.
pub fn has_recognized_ext_x(p: &Vec<u8>) -> (r: bool)
    ensures
        r == has_recognized_ext(p@),
{
    let n = p.len();
    (n >= 2 && p[n - 2] == 46 && p[n - 1] == 118) || (n >= 3 && p[n - 3] == 46 && p[n - 2] == 115
        && p[n - 1] == 118)
}

/// `m` extended with each of the names `ns`, in order, bound to `idx`; a
/// name already present keeps its earlier binding.
pub open spec fn add_decls(m: Map<Seq<u8>, usize>, ns: Seq<Seq<u8>>, idx: usize) -> Map<
    Seq<u8>,
    usize,
>
    decreases ns.len(),
{
    if ns.len() == 0 {
        m
    } else {
        let m1 = if m.contains_key(ns[0]) {
            m
        } else {
            m.insert(ns[0], idx)
        };
        add_decls(m1, ns.drop_first(), idx)
    }
}

/// The module index of a project: each name declared by a file with a
/// recognized extension, bound to the position of the first such file that
/// declares it.
pub open spec fn spec_module_map(files: Seq<SourceFile>) -> Map<Seq<u8>, usize>
    decreases files.len(),
{
    if files.len() == 0 {
        empty_name_map()
    } else {
        let m = spec_module_map(files.drop_last());
        let f = files.last();
        if has_recognized_ext(f.path@) {
            add_decls(m, decls_of(f.content@), (files.len() - 1) as usize)
        } else {
            m
        }
    }
}

/// The file is an HDL source file and one of its lines declares the module
/// `n`.
pub open spec fn file_declares(f: SourceFile, n: Seq<u8>) -> bool {
    has_recognized_ext(f.path@) && decls_of(f.content@).contains(n)
}

proof fn lemma_seq_first_contains(ns: Seq<Seq<u8>>, n: Seq<u8>)
    requires
        ns.len() > 0,
    ensures
        ns.contains(n) <==> (ns[0] == n || ns.drop_first().contains(n)),
{
    if ns.contains(n) {
        let i = choose|i: int| 0 <= i < ns.len() && ns[i] == n;
        if i > 0 {
            assert(ns.drop_first()[i - 1] == n);
        }
    }
    if ns.drop_first().contains(n) {
        let i = choose|i: int| 0 <= i < ns.drop_first().len() && ns.drop_first()[i] == n;
        assert(ns[i + 1] == n);
    }
}

proof fn lemma_add_decls_properties(m: Map<Seq<u8>, usize>, ns: Seq<Seq<u8>>, idx: usize)
    ensures
        forall|n: Seq<u8>|
            #[trigger] add_decls(m, ns, idx).contains_key(n) <==> (m.contains_key(n) || ns.contains(
                n,
            )),
        forall|n: Seq<u8>|
            m.contains_key(n) ==> #[trigger] add_decls(m, ns, idx)[n] == m[n],
        forall|n: Seq<u8>|
            !m.contains_key(n) && #[trigger] ns.contains(n) ==> add_decls(m, ns, idx)[n] == idx,
    decreases ns.len(),
{
    if ns.len() == 0 {
    } else {
        let m1 = if m.contains_key(ns[0]) {
            m
        } else {
            m.insert(ns[0], idx)
        };
        lemma_add_decls_properties(m1, ns.drop_first(), idx);
        assert(add_decls(m, ns, idx) == add_decls(m1, ns.drop_first(), idx));
        assert forall|n: Seq<u8>| #[trigger] add_decls(m, ns, idx).contains_key(n) <==> (
        m.contains_key(n) || ns.contains(n)) by {
            lemma_seq_first_contains(ns, n);
            assert(add_decls(m1, ns.drop_first(), idx).contains_key(n) == (m1.contains_key(n)
                || ns.drop_first().contains(n)));
        }
        assert forall|n: Seq<u8>| m.contains_key(n) implies #[trigger] add_decls(m, ns, idx)[n]
            == m[n] by {
            lemma_seq_first_contains(ns, n);
            assert(m1.contains_key(n) && m1[n] == m[n]);
            assert(add_decls(m1, ns.drop_first(), idx)[n] == m1[n]);
        }
        assert forall|n: Seq<u8>|
            !m.contains_key(n) && #[trigger] ns.contains(n) implies add_decls(m, ns, idx)[n]
            == idx by {
            lemma_seq_first_contains(ns, n);
            if n == ns[0] {
                assert(m1.contains_key(n) && m1[n] == idx);
                assert(add_decls(m1, ns.drop_first(), idx)[n] == m1[n]);
            } else {
                assert(!m1.contains_key(n) && ns.drop_first().contains(n));
                assert(add_decls(m1, ns.drop_first(), idx)[n] == idx);
            }
        }
    }
}

/// Law: the module index binds a name if and only if some HDL file of the
/// project declares it; the bound file declares the name; and no earlier
/// file does — the first writer wins, later duplicate declarations are
/// dropped. In particular a file without a recognized extension never
/// stands in the index, whatever its text declares.
pub proof fn lemma_module_map_properties(files: Seq<SourceFile>)
    requires
        files.len() <= usize::MAX,
    ensures
        forall|n: Seq<u8>|
            #[trigger] spec_module_map(files).contains_key(n) <==> exists|i: int|
                0 <= i < files.len() && #[trigger] file_declares(files[i], n),
        forall|n: Seq<u8>|
            #[trigger] spec_module_map(files).contains_key(n) ==> spec_module_map(files)[n]
                < files.len() && file_declares(files[spec_module_map(files)[n] as int], n),
        forall|n: Seq<u8>, j: int|
            #![trigger spec_module_map(files).contains_key(n), file_declares(files[j], n)]
            spec_module_map(files).contains_key(n) && 0 <= j < spec_module_map(files)[n]
                ==> !file_declares(files[j], n),
    decreases files.len(),
{
    if files.len() == 0 {
    } else {
        let prefix = files.drop_last();
        let mp = spec_module_map(prefix);
        let f = files.last();
        let here = spec_module_map(files);
        let last: int = files.len() - 1;
        lemma_module_map_properties(prefix);
        assert(forall|i: int| 0 <= i < last ==> prefix[i] == #[trigger] files[i]);
        assert(f == files[last]);
        if has_recognized_ext(f.path@) {
            let ds = decls_of(f.content@);
            let idx = (files.len() - 1) as usize;
            lemma_add_decls_properties(mp, ds, idx);
            assert(here == add_decls(mp, ds, idx));
            assert forall|n: Seq<u8>| #[trigger] here.contains_key(n) implies exists|i: int|
                0 <= i < files.len() && #[trigger] file_declares(files[i], n) by {
                assert(here.contains_key(n) == (mp.contains_key(n) || ds.contains(n)));
                if mp.contains_key(n) {
                    let i = choose|i: int|
                        0 <= i < prefix.len() && #[trigger] file_declares(prefix[i], n);
                    assert(file_declares(files[i], n));
                } else {
                    assert(file_declares(files[last], n));
                }
            }
            assert forall|n: Seq<u8>|
                (exists|i: int| 0 <= i < files.len() && #[trigger] file_declares(files[i], n))
                implies #[trigger] here.contains_key(n) by {
                let i = choose|i: int|
                    0 <= i < files.len() && #[trigger] file_declares(files[i], n);
                assert(here.contains_key(n) == (mp.contains_key(n) || ds.contains(n)));
                if i < last {
                    assert(file_declares(prefix[i], n));
                } else {
                    assert(ds.contains(n));
                }
            }
            assert forall|n: Seq<u8>| #[trigger] here.contains_key(n) implies here[n] < files.len()
                && file_declares(files[here[n] as int], n) by {
                assert(here.contains_key(n) == (mp.contains_key(n) || ds.contains(n)));
                if mp.contains_key(n) {
                    assert(add_decls(mp, ds, idx)[n] == mp[n]);
                    assert(file_declares(prefix[mp[n] as int], n));
                } else {
                    assert(ds.contains(n));
                    assert(add_decls(mp, ds, idx)[n] == idx);
                    assert(file_declares(files[last], n));
                }
            }
            assert forall|n: Seq<u8>, j: int|
                #![trigger here.contains_key(n), file_declares(files[j], n)]
                here.contains_key(n) && 0 <= j < here[n] implies !file_declares(files[j], n) by {
                assert(here.contains_key(n) == (mp.contains_key(n) || ds.contains(n)));
                if mp.contains_key(n) {
                    assert(here[n] == mp[n]);
                    if 0 <= j < here[n] && file_declares(files[j], n) {
                        assert(file_declares(prefix[j], n));
                    }
                } else {
                    assert(ds.contains(n));
                    assert(here[n] == idx);
                    if 0 <= j < here[n] && file_declares(files[j], n) {
                        assert(file_declares(prefix[j], n));
                        assert(mp.contains_key(n));
                    }
                }
            }
        } else {
            assert(here == mp);
            assert forall|n: Seq<u8>| #[trigger] here.contains_key(n) implies exists|i: int|
                0 <= i < files.len() && #[trigger] file_declares(files[i], n) by {
                let i = choose|i: int|
                    0 <= i < prefix.len() && #[trigger] file_declares(prefix[i], n);
                assert(file_declares(files[i], n));
            }
            assert forall|n: Seq<u8>|
                (exists|i: int| 0 <= i < files.len() && #[trigger] file_declares(files[i], n))
                implies #[trigger] here.contains_key(n) by {
                let i = choose|i: int|
                    0 <= i < files.len() && #[trigger] file_declares(files[i], n);
                assert(i < last);
                assert(file_declares(prefix[i], n));
            }
            assert forall|n: Seq<u8>| #[trigger] here.contains_key(n) implies here[n] < files.len()
                && file_declares(files[here[n] as int], n) by {
                assert(file_declares(prefix[mp[n] as int], n));
            }
            assert forall|n: Seq<u8>, j: int|
                #![trigger here.contains_key(n), file_declares(files[j], n)]
                here.contains_key(n) && 0 <= j < here[n] implies !file_declares(files[j], n) by {
                assert(here[n] == mp[n]);
                if 0 <= j < here[n] && file_declares(files[j], n) {
                    assert(file_declares(prefix[j], n));
                }
            }
        }
    }
}

/// A project's files together with its module index.
pub struct ModuleIndex {
    /// The project's files, in the order they were handed in.
    pub files: Vec<SourceFile>,
    /// The name-to-file map over positions in `files`.
    pub map: NameMap,
}

impl ModuleIndex {
    /// The mathematical content of the name-to-file map.
    pub open spec fn map_view(self) -> Map<Seq<u8>, usize> {
        name_map_view(self.map)
    }

    /// The map has finitely many names and every name is bound to a
    /// position inside the file list.
    pub open spec fn inv(self) -> bool {
        &&& self.map_view().dom().finite()
        &&& forall|n: Seq<u8>|
            #[trigger] self.map_view().contains_key(n) ==> self.map_view()[n] < self.files@.len()
    }

    /// The map is exactly the module index of the files.
    pub open spec fn wf(self) -> bool {
        &&& self.inv()
        &&& self.map_view() == spec_module_map(self.files@)
    }
}

/// Builds the module index of the given project files: scans each file with
/// a recognized extension for module declarations and binds each declared
/// name to the first file that declares it.
pub fn build_module_map(files: Vec<SourceFile>) -> (r: ModuleIndex)
    ensures
        r.files@ == files@,
        r.wf(),
{
    let mut map = NameMap::new();
    let mut i: usize = 0;
    proof {
        assert(files@.take(0) =~= Seq::empty());
    }
    while i < files.len()
        invariant
            i <= files@.len(),
            name_map_view(map) == spec_module_map(files@.take(i as int)),
            name_map_view(map).dom().finite(),
            forall|n: Seq<u8>|
                #[trigger] name_map_view(map).contains_key(n) ==> name_map_view(map)[n] < i,
        decreases files@.len() - i,
    {
        if has_recognized_ext_x(&files[i].path) {
            let names = extract_module_decls(&files[i].content);
            let ghost m0 = name_map_view(map);
            let ghost nv = seq_views(names@);
            let mut j: usize = 0;
            proof {
                assert(nv.skip(0) =~= nv);
            }
            while j < names.len()
                invariant
                    j <= names@.len(),
                    nv == seq_views(names@),
                    nv.len() == names@.len(),
                    add_decls(name_map_view(map), nv.skip(j as int), i as usize) == add_decls(
                        m0,
                        nv,
                        i as usize,
                    ),
                    name_map_view(map).dom().finite(),
                    forall|n: Seq<u8>|
                        #[trigger] name_map_view(map).contains_key(n) ==> name_map_view(map)[n] < i
                            + 1,
                    i < files@.len(),
                decreases names@.len() - j,
            {
                proof {
                    assert(nv.skip(j as int).drop_first() =~= nv.skip(j + 1));
                    assert(nv.skip(j as int)[0] == nv[j as int]);
                    assert(nv[j as int] == names@[j as int]@);
                }
                if !map.contains_key(&names[j]) {
                    let name = crate::scan::copy_range(&names[j], 0, names[j].len());
                    proof {
                        assert(name@ =~= names@[j as int]@);
                    }
                    map.insert(name, i);
                }
                j = j + 1;
            }
            proof {
                assert(nv.skip(names@.len() as int) =~= Seq::empty());
            }
        }
        proof {
            assert(files@.take(i + 1).drop_last() =~= files@.take(i as int));
            assert(files@.take(i + 1).last() == files@[i as int]);
        }
        i = i + 1;
    }
    proof {
        assert(files@.take(files@.len() as int) =~= files@);
    }
    ModuleIndex { files, map }
}

} // verus!
