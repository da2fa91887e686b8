//! Resolving configured path specifiers into scan roots. A specifier may
//! begin with the home alias `~/` and may end with the wildcard suffix
//! `/*`; the wildcard adds the directory's immediate subdirectories (one
//! level only) beside the directory itself. Specifiers that do not name an
//! existing directory are dropped silently. The result is strictly sorted
//! and free of duplicates, which the discovery scheduler relies on for a
//! deterministic emission order.
//!
//! The filesystem is consulted through a snapshot value listing the
//! existing directories and their immediate subdirectories; the caller
//! builds it from the real filesystem.

use vstd::prelude::*;
use vstd::string::StringExecFns;
use crate::text::push_char;
use crate::text::sort_dedup_strings;
use crate::text::sorted_lt;
use crate::text::sortu;
use crate::text::str_eq;
use crate::text::to_chars;

verus! {

/// One existing directory and its immediate subdirectories.
pub struct DirSnapshot {
    pub path: String,
    pub subdirs: Vec<String>,
}

/// The part of the filesystem the expander consults.
pub struct FsView {
    pub dirs: Vec<DirSnapshot>,
}

/// The first entry for `p` at or after `i`, or -1.
pub open spec fn first_dir(dirs: Seq<DirSnapshot>, p: Seq<char>, i: int) -> int
    decreases dirs.len() - i,
{
    if i < 0 || i >= dirs.len() {
        -1
    } else if dirs[i].path@ == p {
        i
    } else {
        first_dir(dirs, p, i + 1)
    }
}

impl FsView {
    pub open spec fn dir_at(self, p: Seq<char>) -> int {
        first_dir(self.dirs@, p, 0)
    }

    pub open spec fn is_dir(self, p: Seq<char>) -> bool {
        self.dir_at(p) >= 0
    }

    pub open spec fn subdirs_of(self, p: Seq<char>) -> Seq<Seq<char>> {
        self.dirs@[self.dir_at(p)].subdirs.deep_view()
    }

    fn lookup(&self, p: &str) -> (r: Option<usize>)
        ensures
            (match r {
                Some(i) => self.dir_at(p@) == i && i < self.dirs@.len(),
                None => !self.is_dir(p@),
            }),
    {
        let mut i: usize = 0;
        while i < self.dirs.len()
            invariant
                i <= self.dirs@.len(),
                forall|j: int| 0 <= j < i ==> (#[trigger] self.dirs@[j]).path@ != p@,
            decreases self.dirs@.len() - i,
        {
            if str_eq(self.dirs[i].path.as_str(), p) {
                proof {
                    lemma_first_dir_agrees(self.dirs@, p@, i as int);
                }
                return Some(i);
            }
            i += 1;
        }
        proof {
            lemma_first_dir_none(self.dirs@, p@);
        }
        None
    }
}

proof fn lemma_first_dir_agrees(dirs: Seq<DirSnapshot>, p: Seq<char>, i: int)
    requires
        0 <= i < dirs.len(),
        dirs[i].path@ == p,
        forall|j: int| 0 <= j < i ==> (#[trigger] dirs[j]).path@ != p,
    ensures
        first_dir(dirs, p, 0) == i,
{
    lemma_first_dir_step(dirs, p, 0, i);
}

proof fn lemma_first_dir_step(dirs: Seq<DirSnapshot>, p: Seq<char>, k: int, i: int)
    requires
        0 <= k <= i < dirs.len(),
        dirs[i].path@ == p,
        forall|j: int| k <= j < i ==> (#[trigger] dirs[j]).path@ != p,
    ensures
        first_dir(dirs, p, k) == i,
    decreases i - k,
{
    if k < i {
        lemma_first_dir_step(dirs, p, k + 1, i);
    }
}

proof fn lemma_first_dir_none(dirs: Seq<DirSnapshot>, p: Seq<char>)
    requires
        forall|j: int| 0 <= j < dirs.len() ==> (#[trigger] dirs[j]).path@ != p,
    ensures
        first_dir(dirs, p, 0) == -1,
{
    lemma_first_dir_none_step(dirs, p, 0);
}

proof fn lemma_first_dir_none_step(dirs: Seq<DirSnapshot>, p: Seq<char>, k: int)
    requires
        0 <= k,
        forall|j: int| k <= j < dirs.len() ==> (#[trigger] dirs[j]).path@ != p,
    ensures
        first_dir(dirs, p, k) == -1,
    decreases dirs.len() - k,
{
    if k < dirs.len() {
        lemma_first_dir_none_step(dirs, p, k + 1);
    }
}

// ---------- resolving one specifier ----------

pub open spec fn spec_home(home: Option<Seq<char>>) -> Seq<char> {
    match home {
        Some(h) => h,
        None => "~"@,
    }
}

/// The concrete base path a specifier names, and whether its immediate
/// subdirectories are added as roots too. A leading `~/` is replaced by the
/// home directory when one is known, and kept literally when none is; a
/// trailing `/*` is stripped and turns the subdirectory expansion on.
pub open spec fn resolve_spec_path(s: Seq<char>, home: Option<Seq<char>>) -> (Seq<char>, bool) {
    let recursive = s.len() >= 2 && s.subrange(s.len() - 2, s.len() as int) == "/*"@;
    if s == "~/*"@ {
        (spec_home(home), true)
    } else {
        let trimmed = if recursive {
            s.subrange(0, s.len() - 2)
        } else {
            s
        };
        if s.len() >= 2 && s.subrange(0, 2) == "~/"@ {
            match home {
                Some(h) => (h + "/"@ + trimmed.subrange(2, trimmed.len() as int), recursive),
                None => (trimmed, recursive),
            }
        } else {
            (trimmed, recursive)
        }
    }
}

/// Resolve one specifier to its base path and wildcard flag.
pub fn resolve_spec(s: &str, home: Option<&String>) -> (r: (String, bool))
    ensures
        (r.0@, r.1) == resolve_spec_path(s@, home_view(home)),
{
    proof {
        reveal_strlit("/*");
        reveal_strlit("~/*");
        reveal_strlit("~/");
        reveal_strlit("~");
        reveal_strlit("/");
    }
    let v = to_chars(s);
    let n: usize = v.len();
    let recursive: bool = n >= 2 && v[n - 2] == '/' && v[n - 1] == '*';
    proof {
        if n >= 2 {
            assert((s@.subrange(n - 2, n as int) == "/*"@) == (v@[n - 2] == '/' && v@[n - 1]
                == '*')) by {
                if v@[n - 2] == '/' && v@[n - 1] == '*' {
                    assert(s@.subrange(n - 2, n as int) =~= "/*"@);
                } else {
                    if s@.subrange(n - 2, n as int) == "/*"@ {
                        assert(s@.subrange(n - 2, n as int)[0] == '/');
                        assert(s@.subrange(n - 2, n as int)[1] == '*');
                    }
                }
            }
        }
    }
    let is_home_star: bool = n == 3 && v[0] == '~' && v[1] == '/' && v[2] == '*';
    proof {
        if n == 3 && v@[0] == '~' && v@[1] == '/' && v@[2] == '*' {
            assert(s@ =~= "~/*"@);
        } else {
            if s@ == "~/*"@ {
                assert(v@[0] == '~' && v@[1] == '/' && v@[2] == '*');
            }
        }
    }
    if is_home_star {
        let base: String = match home {
            Some(h) => h.clone(),
            None => {
                let mut t = String::new();
                push_char(&mut t, '~');
                assert(t@ =~= "~"@);
                t
            },
        };
        return (base, true);
    }
    let trimmed_len: usize = if recursive {
        n - 2
    } else {
        n
    };
    let starts_home: bool = n >= 2 && v[0] == '~' && v[1] == '/';
    proof {
        if n >= 2 {
            if v@[0] == '~' && v@[1] == '/' {
                assert(s@.subrange(0, 2) =~= "~/"@);
            } else {
                if s@.subrange(0, 2) == "~/"@ {
                    assert(s@.subrange(0, 2)[0] == '~');
                    assert(s@.subrange(0, 2)[1] == '/');
                }
            }
        }
    }
    let ghost trimmed = if recursive {
        s@.subrange(0, s@.len() - 2)
    } else {
        s@
    };
    if starts_home {
        match home {
            Some(h) => {
                let mut out = h.clone().concat("/");
                let mut k: usize = 2;
                while k < trimmed_len
                    invariant
                        2 <= k <= trimmed_len <= n,
                        n == v@.len(),
                        v@ == s@,
                        out@ =~= h@ + "/"@ + s@.subrange(2, k as int),
                    decreases trimmed_len - k,
                {
                    push_char(&mut out, v[k]);
                    assert(out@ =~= h@ + "/"@ + s@.subrange(2, k + 1 as int));
                    k += 1;
                }
                proof {
                    assert(trimmed.subrange(2, trimmed.len() as int) =~= s@.subrange(
                        2,
                        trimmed_len as int,
                    ));
                }
                (out, recursive)
            },
            None => {
                let mut out = String::new();
                let mut k: usize = 0;
                while k < trimmed_len
                    invariant
                        k <= trimmed_len <= n,
                        n == v@.len(),
                        v@ == s@,
                        out@ =~= s@.subrange(0, k as int),
                    decreases trimmed_len - k,
                {
                    push_char(&mut out, v[k]);
                    assert(out@ =~= s@.subrange(0, k + 1 as int));
                    k += 1;
                }
                proof {
                    assert(trimmed =~= s@.subrange(0, trimmed_len as int));
                }
                (out, recursive)
            },
        }
    } else {
        let mut out = String::new();
        let mut k: usize = 0;
        while k < trimmed_len
            invariant
                k <= trimmed_len <= n,
                n == v@.len(),
                v@ == s@,
                out@ =~= s@.subrange(0, k as int),
            decreases trimmed_len - k,
        {
            push_char(&mut out, v[k]);
            assert(out@ =~= s@.subrange(0, k + 1 as int));
            k += 1;
        }
        proof {
            assert(trimmed =~= s@.subrange(0, trimmed_len as int));
        }
        (out, recursive)
    }
}

pub open spec fn home_view(home: Option<&String>) -> Option<Seq<char>> {
    match home {
        Some(h) => Some(h@),
        None => None,
    }
}

// ---------- expansion ----------

/// The roots a specifier list names, before ordering: for each specifier in
/// turn, its base path if that is an existing directory, followed by the
/// directory's immediate subdirectories when the wildcard asked for them.
pub open spec fn expand_raw(specs: Seq<Seq<char>>, home: Option<Seq<char>>, fs: FsView) -> Seq<
    Seq<char>,
>
    decreases specs.len(),
{
    if specs.len() == 0 {
        Seq::empty()
    } else {
        let (p, rec) = resolve_spec_path(specs[0], home);
        let here = if fs.is_dir(p) {
            if rec {
                seq![p] + fs.subdirs_of(p)
            } else {
                seq![p]
            }
        } else {
            Seq::empty()
        };
        here + expand_raw(specs.skip(1), home, fs)
    }
}

/// What `expand_paths` returns: the named roots, strictly sorted, without
/// duplicates.
pub open spec fn expand_spec(specs: Seq<Seq<char>>, home: Option<Seq<char>>, fs: FsView) -> Seq<
    Seq<char>,
> {
    sortu(expand_raw(specs, home, fs))
}

/// Resolve every configured specifier into the set of scan roots.
pub fn expand_paths(specs: &Vec<String>, home: Option<&String>, fs: &FsView) -> (r: Vec<String>)
    ensures
        r.deep_view() == expand_spec(specs.deep_view(), home_view(home), *fs),
        sorted_lt(r.deep_view()),
        r.deep_view().to_set() == expand_raw(specs.deep_view(), home_view(home), *fs).to_set(),
{
    let ghost svs = specs.deep_view();
    let ghost hv = home_view(home);
    let mut raw: Vec<String> = Vec::new();
    proof {
        assert(svs.skip(0) =~= svs);
        assert(raw.deep_view() =~= Seq::<Seq<char>>::empty());
        assert(raw.deep_view() + expand_raw(svs, hv, *fs) =~= expand_raw(svs, hv, *fs));
    }
    let mut i: usize = 0;
    while i < specs.len()
        invariant
            i <= specs@.len(),
            svs == specs.deep_view(),
            hv == home_view(home),
            raw.deep_view() + expand_raw(svs.skip(i as int), hv, *fs) == expand_raw(svs, hv, *fs),
        decreases specs@.len() - i,
    {
        let ghost raw0 = raw.deep_view();
        proof {
            crate::text::lemma_string_vec_deep_view(&raw);
            crate::text::lemma_string_vec_deep_view(specs);
            assert(svs.skip(i as int)[0] == svs[i as int]);
            assert(svs[i as int] == specs@[i as int]@);
        }
        let ghost pre = raw@;
        let (base, rec) = resolve_spec(specs[i].as_str(), home);
        let ghost p = resolve_spec_path(svs[i as int], hv).0;
        let ghost here = {
            if fs.is_dir(p) {
                if resolve_spec_path(svs[i as int], hv).1 {
                    seq![p] + fs.subdirs_of(p)
                } else {
                    seq![p]
                }
            } else {
                Seq::<Seq<char>>::empty()
            }
        };
        assert(base@ == p);
        match fs.lookup(base.as_str()) {
            Some(d) => {
                raw.push(base);
                proof {
                    crate::text::lemma_string_vec_deep_view(&raw);
                    assert(raw.deep_view() =~= raw0 + seq![p]);
                }
                if rec {
                    let subs = &fs.dirs[d].subdirs;
                    proof {
                        crate::text::lemma_string_vec_deep_view(subs);
                    }
                    let mut k: usize = 0;
                    while k < subs.len()
                        invariant
                            k <= subs@.len(),
                            subs == &fs.dirs@[fs.dir_at(p) as int].subdirs,
                            0 <= fs.dir_at(p) < fs.dirs@.len(),
                            raw.deep_view() == raw0 + seq![p] + subs.deep_view().subrange(
                                0,
                                k as int,
                            ),
                        decreases subs@.len() - k,
                    {
                        let ghost dv_pre = raw.deep_view();
                        proof {
                            crate::text::lemma_string_vec_deep_view(&raw);
                            crate::text::lemma_string_vec_deep_view(subs);
                        }
                        raw.push(subs[k].clone());
                        proof {
                            crate::text::lemma_string_vec_deep_view(&raw);
                            assert(raw.deep_view() =~= dv_pre + seq![subs@[k as int]@]);
                            assert(subs.deep_view()[k as int] == subs@[k as int]@);
                            assert(raw.deep_view() =~= raw0 + seq![p] + subs.deep_view().subrange(
                                0,
                                k + 1 as int,
                            ));
                        }
                        k += 1;
                    }
                    proof {
                        assert(subs.deep_view().subrange(0, subs@.len() as int) =~= fs.subdirs_of(
                            p,
                        ));
                        assert(raw.deep_view() =~= raw0 + here);
                    }
                } else {
                    proof {
                        assert(raw.deep_view() =~= raw0 + here);
                    }
                }
            },
            None => {
                proof {
                    assert(here =~= Seq::<Seq<char>>::empty());
                    assert(raw.deep_view() =~= raw0 + here);
                }
            },
        }
        proof {
            assert(expand_raw(svs.skip(i as int), hv, *fs) == here + expand_raw(
                svs.skip(i as int).skip(1),
                hv,
                *fs,
            ));
            assert(svs.skip(i as int).skip(1) =~= svs.skip(i + 1 as int));
            assert(raw.deep_view() + expand_raw(svs.skip(i + 1 as int), hv, *fs) =~= expand_raw(
                svs,
                hv,
                *fs,
            ));
        }
        i += 1;
    }
    proof {
        assert(svs.skip(specs@.len() as int) =~= Seq::<Seq<char>>::empty());
        assert(expand_raw(Seq::<Seq<char>>::empty(), hv, *fs) == Seq::<Seq<char>>::empty());
        assert(raw.deep_view() + Seq::<Seq<char>>::empty() =~= raw.deep_view());
        assert(raw.deep_view() =~= expand_raw(svs, hv, *fs));
    }
    let r = sort_dedup_strings(&raw);
    proof {
        crate::text::lemma_sortu_props(raw.deep_view());
    }
    r
}

/// Law: a specifier with the wildcard suffix whose base resolves to an
/// existing directory yields exactly that directory and its immediate
/// subdirectories, each once (the result is strictly sorted, so nothing
/// appears twice); a specifier whose base is no existing directory yields
/// nothing, without error.
pub proof fn lemma_expand_wildcard(s: Seq<char>, home: Option<Seq<char>>, fs: FsView)
    ensures
        ({
            let (p, rec) = resolve_spec_path(s, home);
            &&& (rec && fs.is_dir(p)) ==> expand_spec(seq![s], home, fs).to_set() == seq![
                p,
            ].to_set().union(fs.subdirs_of(p).to_set())
            &&& !fs.is_dir(p) ==> expand_spec(seq![s], home, fs) == Seq::<Seq<char>>::empty()
            &&& sorted_lt(expand_spec(seq![s], home, fs))
        }),
{
    let (p, rec) = resolve_spec_path(s, home);
    let raw = expand_raw(seq![s], home, fs);
    assert(seq![s][0] == s);
    assert(seq![s].skip(1) =~= Seq::<Seq<char>>::empty());
    assert(expand_raw(Seq::<Seq<char>>::empty(), home, fs) == Seq::<Seq<char>>::empty());
    crate::text::lemma_sortu_props(raw);
    if rec && fs.is_dir(p) {
        assert(raw =~= (seq![p] + fs.subdirs_of(p)) + Seq::<Seq<char>>::empty());
        assert(raw =~= seq![p] + fs.subdirs_of(p));
        assert(raw.to_set() =~= seq![p].to_set().union(fs.subdirs_of(p).to_set())) by {
            let subs = fs.subdirs_of(p);
            assert forall|y: Seq<char>| raw.to_set().contains(y) implies seq![
                p,
            ].to_set().union(subs.to_set()).contains(y) by {
                let k = choose|k: int| 0 <= k < raw.len() && raw[k] == y;
                if k == 0 {
                    assert(seq![p][0] == y);
                    assert(seq![p].contains(y));
                } else {
                    assert(subs[k - 1] == y);
                    assert(subs.contains(y));
                }
            }
            assert forall|y: Seq<char>|
                seq![p].to_set().union(subs.to_set()).contains(y) implies raw.to_set().contains(
                y,
            ) by {
                if seq![p].contains(y) {
                    assert(raw[0] == y);
                    assert(raw.contains(y));
                } else {
                    let k = choose|k: int| 0 <= k < subs.len() && subs[k] == y;
                    assert(raw[k + 1] == y);
                    assert(raw.contains(y));
                }
            }
        }
    }
    if !fs.is_dir(p) {
        assert(raw =~= Seq::<Seq<char>>::empty());
        assert(raw.to_set() =~= Set::<Seq<char>>::empty());
        let sorted = expand_spec(seq![s], home, fs);
        assert(sorted.to_set() == Set::<Seq<char>>::empty());
        if sorted.len() > 0 {
            assert(sorted.contains(sorted[0]));
            assert(sorted.to_set().contains(sorted[0]));
        }
        assert(sorted =~= Seq::<Seq<char>>::empty());
    }
}

} // verus!
