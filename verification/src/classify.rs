//! Classification of discovered files into media kinds by their path's
//! extension: `mp4`, `mkv` and `avi` are video, `jpg`, `jpeg`, `png` and
//! `gif` are image, everything else is unknown and is dropped by the
//! discovery pipeline.

use vstd::prelude::*;
use crate::text::to_chars;
use crate::text::char_vec_eq;

verus! {

#[derive(Clone, Copy, PartialEq, Eq, Structural, Debug)]
pub enum MediaKind {
    Image,
    Video,
    Unknown,
}

/// The largest index at which `c` occurs in `s`, or -1 when it does not.
pub open spec fn last_pos(s: Seq<char>, c: char) -> int
    decreases s.len(),
{
    if s.len() == 0 {
        -1
    } else if s[s.len() - 1] == c {
        s.len() - 1
    } else {
        last_pos(s.drop_last(), c)
    }
}

pub proof fn lemma_last_pos(s: Seq<char>, c: char)
    ensures
        -1 <= last_pos(s, c) < s.len(),
        last_pos(s, c) >= 0 ==> s[last_pos(s, c)] == c,
        forall|j: int| last_pos(s, c) < j < s.len() ==> s[j] != c,
    decreases s.len(),
{
    if s.len() == 0 {
    } else if s[s.len() - 1] == c {
    } else {
        lemma_last_pos(s.drop_last(), c);
        assert(forall|j: int| 0 <= j < s.len() - 1 ==> s[j] == s.drop_last()[j]);
    }
}

/// The final path component: everything after the last `/`.
pub open spec fn file_name_of(path: Seq<char>) -> Seq<char> {
    path.subrange(last_pos(path, '/') + 1, path.len() as int)
}

/// The extension of the final path component: the part after its last `.`,
/// provided that dot is neither absent nor the component's first character.
pub open spec fn extension_of(path: Seq<char>) -> Option<Seq<char>> {
    let name = file_name_of(path);
    let d = last_pos(name, '.');
    if d <= 0 {
        None
    } else {
        Some(name.subrange(d + 1, name.len() as int))
    }
}

pub open spec fn media_kind_of(path: Seq<char>) -> MediaKind {
    match extension_of(path) {
        None => MediaKind::Unknown,
        Some(e) => if e == "mp4"@ || e == "mkv"@ || e == "avi"@ {
            MediaKind::Video
        } else if e == "jpg"@ || e == "jpeg"@ || e == "png"@ || e == "gif"@ {
            MediaKind::Image
        } else {
            MediaKind::Unknown
        },
    }
}

pub open spec fn kind_name(k: MediaKind) -> Seq<char> {
    match k {
        MediaKind::Image => "image"@,
        MediaKind::Video => "video"@,
        MediaKind::Unknown => "unknown"@,
    }
}

/// Scan for the largest index holding `c` within `v@.subrange(from, to)`,
/// reported as an absolute index, or -1 encoded through the Option.
pub(crate) fn rscan(v: &Vec<char>, from: usize, to: usize, c: char) -> (r: Option<usize>)
    requires
        from <= to <= v@.len(),
    ensures
        match r {
            Some(i) => from <= i < to && v@[i as int] == c && (forall|j: int|
                i < j < to ==> v@[j] != c),
            None => forall|j: int| from <= j < to ==> v@[j] != c,
        },
{
    let mut k: usize = to;
    while k > from
        invariant
            from <= k <= to <= v@.len(),
            forall|j: int| k <= j < to ==> v@[j] != c,
        decreases k,
    {
        k -= 1;
        if v[k] == c {
            return Some(k);
        }
    }
    None
}

pub(crate) proof fn lemma_last_pos_agrees(s: Seq<char>, c: char, r: Option<usize>)
    requires
        match r {
            Some(i) => 0 <= i < s.len() && s[i as int] == c && (forall|j: int|
                i < j < s.len() ==> s[j] != c),
            None => forall|j: int| 0 <= j < s.len() ==> s[j] != c,
        },
    ensures
        match r {
            Some(i) => last_pos(s, c) == i,
            None => last_pos(s, c) == -1,
        },
{
    lemma_last_pos(s, c);
    let p = last_pos(s, c);
    match r {
        Some(i) => {
            if p < i {
                assert(s[i as int] != c);
                assert(false);
            }
            if p > i {
                assert(s[p] != c);
                assert(false);
            }
        },
        None => {
            if p >= 0 {
                assert(s[p] != c);
                assert(false);
            }
        },
    }
}

/// Classify a file path by its extension.
pub fn classify_path(path: &str) -> (r: MediaKind)
    ensures
        r == media_kind_of(path@),
{
    let v = to_chars(path);
    let n: usize = v.len();
    let slash = rscan(&v, 0, n, '/');
    proof {
        lemma_last_pos_agrees(path@, '/', slash);
    }
    let name_start: usize = match slash {
        Some(i) => i + 1,
        None => 0,
    };
    let ghost name = file_name_of(path@);
    assert(name == path@.subrange(name_start as int, n as int));
    let dot = rscan(&v, name_start, n, '.');
    proof {
        assert(forall|j: int|
            0 <= j < name.len() ==> name[j] == path@[name_start + j]);
        match dot {
            Some(i) => {
                lemma_last_pos_agrees(name, '.', Some((i - name_start) as usize));
            },
            None => {
                lemma_last_pos_agrees(name, '.', None::<usize>);
            },
        }
    }
    let ext_start: usize = match dot {
        Some(i) => {
            if i <= name_start {
                assert(media_kind_of(path@) == MediaKind::Unknown);
                return MediaKind::Unknown;
            }
            i + 1
        },
        None => {
            assert(media_kind_of(path@) == MediaKind::Unknown);
            return MediaKind::Unknown;
        },
    };
    // extract the extension characters
    let mut ext: Vec<char> = Vec::new();
    let mut k: usize = ext_start;
    while k < n
        invariant
            ext_start <= k <= n,
            n == v@.len(),
            v@ == path@,
            ext@ =~= path@.subrange(ext_start as int, k as int),
        decreases n - k,
    {
        ext.push(v[k]);
        assert(ext@ =~= path@.subrange(ext_start as int, k + 1 as int));
        k += 1;
    }
    proof {
        let d = last_pos(name, '.');
        assert(ext@ =~= name.subrange(d + 1, name.len() as int));
    }
    if char_vec_eq(&ext, &to_chars("mp4")) || char_vec_eq(&ext, &to_chars("mkv")) || char_vec_eq(
        &ext,
        &to_chars("avi"),
    ) {
        MediaKind::Video
    } else if char_vec_eq(&ext, &to_chars("jpg")) || char_vec_eq(&ext, &to_chars("jpeg"))
        || char_vec_eq(&ext, &to_chars("png")) || char_vec_eq(&ext, &to_chars("gif")) {
        MediaKind::Image
    } else {
        MediaKind::Unknown
    }
}

/// The name of a path's media kind, as the discovery records carry it.
pub fn get_file_type(path: &str) -> (r: String)
    ensures
        r@ == kind_name(media_kind_of(path@)),
{
    let k = classify_path(path);
    let lit: &str = match k {
        MediaKind::Image => "image",
        MediaKind::Video => "video",
        MediaKind::Unknown => "unknown",
    };
    let chars = to_chars(lit);
    crate::text::from_chars(&chars)
}

} // verus!
