use vstd::prelude::*;
use vstd::string::*;

use crate::codec;

verus! {

/// No `.` occurs in `s` at a position in `[from, to)`.
pub open spec fn no_dot_in(s: Seq<char>, from: int, to: int) -> bool {
    forall|j: int| from <= j < to ==> s[j] != '.'
}

/// No `/` occurs in `s` at a position in `[from, to)`.
pub open spec fn no_slash_in(s: Seq<char>, from: int, to: int) -> bool {
    forall|j: int| from <= j < to ==> s[j] != '/'
}

/// Whether `s` ends with `suffix`.
pub open spec fn has_suffix(s: Seq<char>, suffix: Seq<char>) -> bool {
    s.len() >= suffix.len() && s.subrange(s.len() - suffix.len(), s.len() as int) == suffix
}

/// One directory entry that a scan matched: the part of the last path
/// component before its first `.`, the part of the path after the path's
/// first `.`, and the full path itself.
pub struct FileEntry {
    pub file_name: String,
    pub file_extension: String,
    pub full_path: String,
}

/// How the three fields of an entry fit together: the extension is
/// everything after the first `.` of the full path, and the name is the part
/// of the last path component before that component's first `.`.
pub open spec fn entry_parsed(e: FileEntry) -> bool {
    let p = e.full_path@;
    &&& exists|k: int|
        0 <= k < p.len() && #[trigger] p[k] == '.' && no_dot_in(p, 0, k) && e.file_extension@
            == p.subrange(k + 1, p.len() as int)
    &&& exists|st: int, k: int|
        0 <= st <= k <= p.len() && (st == 0 || p[st - 1] == '/') && no_slash_in(
            p,
            st,
            p.len() as int,
        ) && (k == p.len() || p[k] == '.') && no_dot_in(p, st, k) && e.file_name@ == #[trigger] p
            .subrange(st, k)
}

/// The position of the first `.` at or after `start`, if there is one.
pub(crate) fn find_dot_from(t: &str, tlen: usize, start: usize) -> (res: Option<usize>)
    requires
        t@.len() == tlen,
        start <= tlen,
    ensures
        res matches Some(k) ==> start <= k < tlen && t@[k as int] == '.' && no_dot_in(
            t@,
            start as int,
            k as int,
        ),
        res is None ==> no_dot_in(t@, start as int, tlen as int),
{
    let mut i = start;
    while i < tlen
        invariant
            start <= i <= tlen,
            t@.len() == tlen,
            no_dot_in(t@, start as int, i as int),
        decreases tlen - i,
    {
        let c = t.get_char(i);
        if c == '.' {
            return Some(i);
        }
        i += 1;
    }
    None
}

/// The position of the last `/` strictly before `end`, if there is one.
pub(crate) fn find_last_slash_before(t: &str, tlen: usize, end: usize) -> (res: Option<usize>)
    requires
        t@.len() == tlen,
        end <= tlen,
    ensures
        res matches Some(k) ==> k < end && t@[k as int] == '/' && no_slash_in(
            t@,
            k as int + 1,
            end as int,
        ),
        res is None ==> no_slash_in(t@, 0, end as int),
{
    let mut i = end;
    while i > 0
        invariant
            0 <= i <= end,
            t@.len() == tlen,
            end <= tlen,
            no_slash_in(t@, i as int, end as int),
        decreases i,
    {
        let c = t.get_char(i - 1);
        if c == '/' {
            return Some(i - 1);
        }
        i -= 1;
    }
    None
}

impl FileEntry {
    /// Takes apart one matched path. The path must carry an extension: a
    /// scan only hands over paths it matched against one.
    pub fn new(full_path: String) -> (res: FileEntry)
        requires
            exists|i: int| 0 <= i < full_path@.len() && #[trigger] full_path@[i] == '.',
        ensures
            res.full_path == full_path,
            entry_parsed(res),
    {
        let tlen = full_path.as_str().unicode_len();
        let k = match find_dot_from(full_path.as_str(), tlen, 0) {
            Some(k) => k,
            // a matched path always carries a dot
            None => vstd::pervasive::unreached(),
        };
        let file_extension = String::from_str(full_path.as_str().substring_char(k + 1, tlen));
        let st = match find_last_slash_before(full_path.as_str(), tlen, tlen) {
            Some(j) => j + 1,
            None => 0,
        };
        let k2 = match find_dot_from(full_path.as_str(), tlen, st) {
            Some(k2) => k2,
            None => tlen,
        };
        let file_name = String::from_str(full_path.as_str().substring_char(st, k2));
        let res = FileEntry { file_name, file_extension, full_path };
        proof {
            let p = res.full_path@;
            assert(p[k as int] == '.' && no_dot_in(p, 0, k as int) && res.file_extension@
                == p.subrange(k as int + 1, p.len() as int));
            assert((st == 0 || p[st - 1] == '/') && no_slash_in(p, st as int, p.len() as int)
                && (k2 == p.len() || p[k2 as int] == '.') && no_dot_in(p, st as int, k2 as int)
                && res.file_name@ == p.subrange(st as int, k2 as int));
        }
        res
    }
}

/// `push` commutes with `filter`: the pushed element stays exactly when the
/// predicate holds of it.
pub(crate) proof fn lemma_filter_push<A>(s: Seq<A>, pred: spec_fn(A) -> bool, x: A)
    ensures
        s.push(x).filter(pred) == if pred(x) {
            s.filter(pred).push(x)
        } else {
            s.filter(pred)
        },
{
    reveal(Seq::filter);
    assert(s.push(x).drop_last() =~= s);
    assert(s.push(x).last() == x);
}

/// The paths in `paths` that name pending records — those with the `.ready`
/// extension — parsed into entries, in their input order.
pub fn get_ready_files(paths: &Vec<String>) -> (res: Vec<FileEntry>)
    ensures
        res@.map_values(|e: FileEntry| e.full_path@) == paths@.map_values(|p: String| p@).filter(
            |q: Seq<char>| has_suffix(q, ".ready"@),
        ),
        forall|i: int| 0 <= i < res@.len() ==> entry_parsed(#[trigger] res@[i]),
{
    let suffix = ".ready";
    proof {
        reveal_strlit(".ready");
    }
    let mut res: Vec<FileEntry> = Vec::new();
    let mut i: usize = 0;
    proof {
        assert(paths@.subrange(0, 0).map_values(|p: String| p@) =~= Seq::<Seq<char>>::empty());
        assert(res@.map_values(|e: FileEntry| e.full_path@) =~= Seq::<Seq<char>>::empty());
        assert(Seq::<Seq<char>>::empty().filter(|q: Seq<char>| has_suffix(q, ".ready"@))
            =~= Seq::<Seq<char>>::empty());
    }
    while i < paths.len()
        invariant
            0 <= i <= paths.len(),
            suffix@ == ".ready"@,
            res@.map_values(|e: FileEntry| e.full_path@) == paths@.subrange(
                0,
                i as int,
            ).map_values(|p: String| p@).filter(|q: Seq<char>| has_suffix(q, ".ready"@)),
            forall|j: int| 0 <= j < res@.len() ==> entry_parsed(#[trigger] res@[j]),
        decreases paths.len() - i,
    {
        proof {
            reveal_strlit(".ready");
        }
        let ghost prev = paths@.subrange(0, i as int).map_values(|p: String| p@);
        let ghost oldviews = res@.map_values(|e: FileEntry| e.full_path@);
        let p = &paths[i];
        let plen = p.as_str().unicode_len();
        let matched = codec::match_at(p.as_str(), plen, if plen >= 6 {
            plen - 6
        } else {
            0
        }, suffix);
        if matched && plen >= 6 {
            proof {
                assert(has_suffix(p@, ".ready"@));
                assert(p@[plen - 6] == p@.subrange(plen - 6, plen as int)[0]);
                assert(p@[plen - 6] == '.');
            }
            let e = FileEntry::new(p.clone());
            res.push(e);
            proof {
                assert(res@.map_values(|e: FileEntry| e.full_path@) =~= oldviews.push(p@));
            }
        } else {
            proof {
                assert(!has_suffix(p@, ".ready"@));
            }
        }
        proof {
            assert(paths@.subrange(0, i + 1) =~= paths@.subrange(0, i as int).push(
                paths@[i as int],
            ));
            assert(paths@.subrange(0, i + 1).map_values(|p: String| p@) =~= prev.push(
                paths@[i as int]@,
            ));
            lemma_filter_push(prev, |q: Seq<char>| has_suffix(q, ".ready"@), paths@[i as int]@);
        }
        i += 1;
    }
    proof {
        assert(paths@.subrange(0, i as int) =~= paths@);
    }
    res
}

/// The paths in `paths` that name finished work — those with the `.done`
/// extension — parsed into entries, in their input order.
pub fn get_done_files(paths: &Vec<String>) -> (res: Vec<FileEntry>)
    ensures
        res@.map_values(|e: FileEntry| e.full_path@) == paths@.map_values(|p: String| p@).filter(
            |q: Seq<char>| has_suffix(q, ".done"@),
        ),
        forall|i: int| 0 <= i < res@.len() ==> entry_parsed(#[trigger] res@[i]),
{
    let suffix = ".done";
    proof {
        reveal_strlit(".done");
    }
    let mut res: Vec<FileEntry> = Vec::new();
    let mut i: usize = 0;
    proof {
        assert(paths@.subrange(0, 0).map_values(|p: String| p@) =~= Seq::<Seq<char>>::empty());
        assert(res@.map_values(|e: FileEntry| e.full_path@) =~= Seq::<Seq<char>>::empty());
        assert(Seq::<Seq<char>>::empty().filter(|q: Seq<char>| has_suffix(q, ".done"@))
            =~= Seq::<Seq<char>>::empty());
    }
    while i < paths.len()
        invariant
            0 <= i <= paths.len(),
            suffix@ == ".done"@,
            res@.map_values(|e: FileEntry| e.full_path@) == paths@.subrange(
                0,
                i as int,
            ).map_values(|p: String| p@).filter(|q: Seq<char>| has_suffix(q, ".done"@)),
            forall|j: int| 0 <= j < res@.len() ==> entry_parsed(#[trigger] res@[j]),
        decreases paths.len() - i,
    {
        proof {
            reveal_strlit(".done");
        }
        let ghost prev = paths@.subrange(0, i as int).map_values(|p: String| p@);
        let ghost oldviews = res@.map_values(|e: FileEntry| e.full_path@);
        let p = &paths[i];
        let plen = p.as_str().unicode_len();
        let matched = codec::match_at(p.as_str(), plen, if plen >= 5 {
            plen - 5
        } else {
            0
        }, suffix);
        if matched && plen >= 5 {
            proof {
                assert(has_suffix(p@, ".done"@));
                assert(p@[plen - 5] == p@.subrange(plen - 5, plen as int)[0]);
                assert(p@[plen - 5] == '.');
            }
            let e = FileEntry::new(p.clone());
            res.push(e);
            proof {
                assert(res@.map_values(|e: FileEntry| e.full_path@) =~= oldviews.push(p@));
            }
        } else {
            proof {
                assert(!has_suffix(p@, ".done"@));
            }
        }
        proof {
            assert(paths@.subrange(0, i + 1) =~= paths@.subrange(0, i as int).push(
                paths@[i as int],
            ));
            assert(paths@.subrange(0, i + 1).map_values(|p: String| p@) =~= prev.push(
                paths@[i as int]@,
            ));
            lemma_filter_push(prev, |q: Seq<char>| has_suffix(q, ".done"@), paths@[i as int]@);
        }
        i += 1;
    }
    proof {
        assert(paths@.subrange(0, i as int) =~= paths@);
    }
    res
}

} // verus!
