//! Per-file counts and per-language aggregation.

use vstd::prelude::*;
use vstd::seq_lib::commutative_foldr;
use vstd::seq_lib::lemma_fold_right_permutation;

use crate::classify::classify;
use crate::classify::file_stat_of;
use crate::lang::extension_of;
use crate::lang::get_language_name;
use crate::lang::is_recognized;
use crate::lang::last_dot_at;
use crate::lang::last_slash_end;
use crate::lang::strip_trailing_slashes;
use crate::lang::str_eq;
use vstd::string::StrSliceExecFns;

verus! {

/// Counts gathered for one file, or aggregated for one language:
/// comment lines, blank lines, lines of code, and how many files
/// were folded into these totals.
#[derive(Debug, Clone, Copy)]
#[verifier::ext_equal]
pub struct FileInfo {
    pub comments_count: u64,
    pub blank_spaces_count: u64,
    pub lines_of_code: u64,
    pub nums_of_files: u64,
}

/// The mathematical content of a `FileInfo`: the same four counts as
/// unbounded integers, so that sums can be spoken of without overflow.
#[verifier::ext_equal]
pub ghost struct StatSums {
    pub comments: int,
    pub blanks: int,
    pub code: int,
    pub files: int,
}

impl FileInfo {
    /// The counts of this record as unbounded integers.
    pub open spec fn sums(self) -> StatSums {
        StatSums {
            comments: self.comments_count as int,
            blanks: self.blank_spaces_count as int,
            code: self.lines_of_code as int,
            files: self.nums_of_files as int,
        }
    }

    /// A fresh record for a single not-yet-scanned file.
    pub fn new() -> (r: Self)
        ensures
            r.comments_count == 0,
            r.blank_spaces_count == 0,
            r.lines_of_code == 0,
            r.nums_of_files == 1,
    {
        FileInfo {
            comments_count: 0,
            blank_spaces_count: 0,
            lines_of_code: 0,
            nums_of_files: 1,
        }
    }

    /// Folds another record into this one, adding all four counts.
    pub fn update(&mut self, file_info: FileInfo)
        requires
            old(self).comments_count + file_info.comments_count <= u64::MAX,
            old(self).blank_spaces_count + file_info.blank_spaces_count <= u64::MAX,
            old(self).lines_of_code + file_info.lines_of_code <= u64::MAX,
            old(self).nums_of_files + file_info.nums_of_files <= u64::MAX,
        ensures
            final(self).sums() == stat_add(old(self).sums(), file_info.sums()),
    {
        self.comments_count = self.comments_count + file_info.comments_count;
        self.blank_spaces_count = self.blank_spaces_count + file_info.blank_spaces_count;
        self.lines_of_code = self.lines_of_code + file_info.lines_of_code;
        self.nums_of_files = self.nums_of_files + file_info.nums_of_files;
    }
}

/// Component-wise sum of two count records.
pub open spec fn stat_add(a: StatSums, b: StatSums) -> StatSums {
    StatSums {
        comments: a.comments + b.comments,
        blanks: a.blanks + b.blanks,
        code: a.code + b.code,
        files: a.files + b.files,
    }
}

/// Two records can be folded without overflowing any `u64` count.
pub open spec fn fits_with(a: FileInfo, b: FileInfo) -> bool {
    &&& a.comments_count + b.comments_count <= u64::MAX
    &&& a.blank_spaces_count + b.blank_spaces_count <= u64::MAX
    &&& a.lines_of_code + b.lines_of_code <= u64::MAX
    &&& a.nums_of_files + b.nums_of_files <= u64::MAX
}

/// The record that folding `b` into `a` leaves, when the sums fit.
pub open spec fn combined(a: FileInfo, b: FileInfo) -> FileInfo {
    FileInfo {
        comments_count: (a.comments_count + b.comments_count) as u64,
        blank_spaces_count: (a.blank_spaces_count + b.blank_spaces_count) as u64,
        lines_of_code: (a.lines_of_code + b.lines_of_code) as u64,
        nums_of_files: (a.nums_of_files + b.nums_of_files) as u64,
    }
}

/// When the sums fit, folding two records adds their counts exactly.
pub proof fn lemma_combined_sums(a: FileInfo, b: FileInfo)
    requires
        fits_with(a, b),
    ensures
        combined(a, b).sums() == stat_add(a.sums(), b.sums()),
{
}

/// Law: folding two records into an aggregate in either order leaves
/// the same aggregate, whenever the sums fit — the record-level form of
/// the commutativity of the fold.
pub proof fn lemma_update_order_irrelevant(a: FileInfo, x: FileInfo, y: FileInfo)
    requires
        fits_with(a, x),
        fits_with(combined(a, x), y),
    ensures
        combined(combined(a, x), y) == combined(combined(a, y), x),
{
    assert(combined(combined(a, x), y) =~= combined(combined(a, y), x));
}

/// Folding counts is commutative.
pub proof fn lemma_stat_add_commutative(a: StatSums, b: StatSums)
    ensures
        stat_add(a, b) == stat_add(b, a),
{
}

/// Folding counts is associative.
pub proof fn lemma_stat_add_associative(a: StatSums, b: StatSums, c: StatSums)
    ensures
        stat_add(stat_add(a, b), c) == stat_add(a, stat_add(b, c)),
{
}

/// Nothing counted yet.
pub open spec fn zero_sums() -> StatSums {
    StatSums { comments: 0, blanks: 0, code: 0, files: 0 }
}

/// The fold step, as a function value: each file record's counts are
/// added onto the aggregate gathered so far.
pub open spec fn record_fold_step() -> spec_fn(FileInfo, StatSums) -> StatSums {
    |f: FileInfo, acc: StatSums| stat_add(f.sums(), acc)
}

/// A sequence of file records folded into one aggregate, in order.
pub open spec fn fold_records(s: Seq<FileInfo>) -> StatSums {
    s.fold_right(record_fold_step(), zero_sums())
}

/// Law: folding the same file records in any permutation yields the same
/// aggregate — two sequences with equal contents fold to equal sums.
pub proof fn lemma_fold_records_permutation(s1: Seq<FileInfo>, s2: Seq<FileInfo>)
    requires
        s1.to_multiset() == s2.to_multiset(),
    ensures
        fold_records(s1) == fold_records(s2),
{
    let f = record_fold_step();
    assert(commutative_foldr(f)) by {
        assert forall|x: FileInfo, y: FileInfo, v: StatSums| #[trigger] f(x, f(y, v)) == f(
            y,
            f(x, v),
        ) by {
            assert(f(x, f(y, v)) == stat_add(x.sums(), stat_add(y.sums(), v)));
            assert(f(y, f(x, v)) == stat_add(y.sums(), stat_add(x.sums(), v)));
        }
    }
    lemma_fold_right_permutation(s1, s2, f, zero_sums());
}

/// The aggregate stored for key `k` in an association list, searched
/// front to back.
pub open spec fn seq_get(s: Seq<(String, FileInfo)>, k: Seq<char>) -> Option<FileInfo>
    decreases s.len(),
{
    if s.len() == 0 {
        None
    } else if s[0].0@ == k {
        Some(s[0].1)
    } else {
        seq_get(s.drop_first(), k)
    }
}

/// When an entry with key `k` stands at `i` and no earlier entry carries
/// `k`, the lookup returns exactly that entry's record.
proof fn lemma_seq_get_at_index(s: Seq<(String, FileInfo)>, k: Seq<char>, i: int)
    requires
        0 <= i < s.len(),
        s[i].0@ == k,
        forall|j: int| 0 <= j < i ==> (#[trigger] s[j]).0@ != k,
    ensures
        seq_get(s, k) == Some(s[i].1),
    decreases i,
{
    if i > 0 {
        lemma_seq_get_at_index(s.drop_first(), k, i - 1);
    }
}

/// When no entry carries key `k`, the lookup returns nothing.
proof fn lemma_seq_get_absent(s: Seq<(String, FileInfo)>, k: Seq<char>)
    requires
        forall|j: int| 0 <= j < s.len() ==> (#[trigger] s[j]).0@ != k,
    ensures
        seq_get(s, k) is None,
    decreases s.len(),
{
    if s.len() > 0 {
        lemma_seq_get_absent(s.drop_first(), k);
    }
}

/// Replacing the first entry that carries `p`'s key changes the lookup
/// at that key alone.
proof fn lemma_seq_get_update(s: Seq<(String, FileInfo)>, i: int, p: (String, FileInfo), k: Seq<
    char,
>)
    requires
        0 <= i < s.len(),
        s[i].0@ == p.0@,
        forall|j: int| 0 <= j < i ==> (#[trigger] s[j]).0@ != p.0@,
    ensures
        seq_get(s.update(i, p), k) == if k == p.0@ {
            Some(p.1)
        } else {
            seq_get(s, k)
        },
    decreases i,
{
    if i == 0 {
        assert(s.update(i, p)[0] == p);
        assert(s.update(i, p).drop_first() =~= s.drop_first());
    } else {
        assert(s.update(i, p)[0] == s[0]);
        assert(s.update(i, p).drop_first() =~= s.drop_first().update(i - 1, p));
        lemma_seq_get_update(s.drop_first(), i - 1, p, k);
    }
}

/// Appending an entry changes the lookup only at its key, and only when
/// that key was absent.
proof fn lemma_seq_get_push(s: Seq<(String, FileInfo)>, p: (String, FileInfo), k: Seq<char>)
    ensures
        seq_get(s.push(p), k) == (match seq_get(s, k) {
            Some(v) => Some(v),
            None => if k == p.0@ {
                Some(p.1)
            } else {
                None
            },
        }),
    decreases s.len(),
{
    if s.len() == 0 {
        assert(s.push(p)[0] == p);
        assert(s.push(p).drop_first() =~= Seq::<(String, FileInfo)>::empty());
        assert(seq_get(Seq::<(String, FileInfo)>::empty(), k) is None);
        assert(seq_get(s.push(p), k) == if k == p.0@ {
            Some(p.1)
        } else {
            None::<FileInfo>
        });
    } else {
        assert(s.push(p)[0] == s[0]);
        assert(s.push(p).drop_first() =~= s.drop_first().push(p));
        lemma_seq_get_push(s.drop_first(), p, k);
    }
}

/// Finds the first entry whose key reads as `key`.
fn find_key(counts: &Vec<(String, FileInfo)>, key: &str) -> (r: Option<usize>)
    ensures
        ({
            match r {
                Some(i) => i < counts@.len() && counts@[i as int].0@ == key@ && (forall|j: int|
                    0 <= j < i ==> (#[trigger] counts@[j]).0@ != key@),
                None => forall|j: int|
                    0 <= j < counts@.len() ==> (#[trigger] counts@[j]).0@ != key@,
            }
        }),
{
    let mut i: usize = 0;
    while i < counts.len()
        invariant
            i <= counts@.len(),
            forall|j: int| 0 <= j < i ==> (#[trigger] counts@[j]).0@ != key@,
        decreases counts@.len() - i,
    {
        if str_eq(counts[i].0.as_str(), key) {
            return Some(i);
        }
        i = i + 1;
    }
    None
}

/// The running per-language totals of one scan: one aggregate for each
/// file extension seen, each extension held once.
#[derive(Debug, Clone)]
pub struct Files {
    pub counts: Vec<(String, FileInfo)>,
}

impl Files {
    /// Well-formed: no extension is held twice.
    pub open spec fn wf(self) -> bool {
        forall|i: int, j: int|
            0 <= i < j < self.counts@.len() ==> (#[trigger] self.counts@[i]).0@ != (
            #[trigger] self.counts@[j]).0@
    }

    /// The aggregate recorded for extension `ext`, if any: the mapping
    /// that a scan builds, read off entry by entry.
    pub open spec fn stat_for(self, ext: Seq<char>) -> Option<FileInfo> {
        seq_get(self.counts@, ext)
    }

    /// How many extensions hold an aggregate.
    pub open spec fn spec_len(self) -> nat {
        self.counts@.len()
    }

    /// A fresh, empty scan result: no extension has an aggregate.
    pub fn new() -> (r: Files)
        ensures
            r.wf(),
            r.spec_len() == 0,
            forall|k: Seq<char>| #[trigger] r.stat_for(k) is None,
    {
        let r = Files { counts: Vec::new() };
        proof {
            assert(forall|k: Seq<char>| #[trigger] seq_get(r.counts@, k) is None);
        }
        r
    }

    /// How many extensions hold an aggregate.
    pub fn len(&self) -> (n: usize)
        ensures
            n == self.spec_len(),
    {
        self.counts.len()
    }

    /// The `i`-th extension and its aggregate, for reading the result out.
    pub fn entry_at(&self, i: usize) -> (r: (String, FileInfo))
        requires
            i < self.spec_len(),
        ensures
            r.0@ == self.counts@[i as int].0@,
            r.1 == self.counts@[i as int].1,
            self.stat_for(r.0@) is Some,
            self.wf() ==> self.stat_for(r.0@) == Some(r.1),
    {
        proof {
            if self.wf() {
                lemma_seq_get_at_index(self.counts@, self.counts@[i as int].0@, i as int);
            } else {
                lemma_seq_get_at_index_some(self.counts@, self.counts@[i as int].0@, i as int);
            }
        }
        (self.counts[i].0.clone(), self.counts[i].1)
    }

    /// The aggregate recorded so far for an extension.
    pub fn get(&self, file_ext: &str) -> (r: Option<FileInfo>)
        ensures
            r == self.stat_for(file_ext@),
    {
        match find_key(&self.counts, file_ext) {
            Some(i) => {
                proof {
                    lemma_seq_get_at_index(self.counts@, file_ext@, i as int);
                }
                Some(self.counts[i].1)
            },
            None => {
                proof {
                    lemma_seq_get_absent(self.counts@, file_ext@);
                }
                None
            },
        }
    }

    /// Whether folding `new_info` under `file_ext` stays within the
    /// counters' range.
    pub open spec fn room_for(self, ext: Seq<char>, info: FileInfo) -> bool {
        match self.stat_for(ext) {
            Some(prev) => fits_with(prev, info),
            None => true,
        }
    }

    /// Tests that folding `new_info` under `file_ext` would overflow no
    /// counter, so that `update_file_info` may be called.
    pub fn fits(&self, file_ext: &str, new_info: &FileInfo) -> (r: bool)
        ensures
            r == self.room_for(file_ext@, *new_info),
    {
        match self.get(file_ext) {
            Some(prev) => {
                prev.comments_count <= u64::MAX - new_info.comments_count
                    && prev.blank_spaces_count <= u64::MAX - new_info.blank_spaces_count
                    && prev.lines_of_code <= u64::MAX - new_info.lines_of_code
                    && prev.nums_of_files <= u64::MAX - new_info.nums_of_files
            },
            None => true,
        }
    }

    /// The extension of a file name: what follows the last `.` of the
    /// path's final component (trailing separators ignored), unless that
    /// dot opens the component or the component is `..`.
    pub fn get_extension_from_filename(filename: &str) -> (r: Option<&str>)
        ensures
            ({
                match extension_of(filename@) {
                    Some(e) => r is Some && r->Some_0@ == e,
                    None => r is None,
                }
            }),
    {
        let ghost s = filename@;
        let n = filename.unicode_len();
        let mut m: usize = n;
        proof {
            assert(s.take(n as int) =~= s);
        }
        while m > 0 && filename.get_char(m - 1) == '/'
            invariant
                s == filename@,
                m <= n,
                n == s.len(),
                strip_trailing_slashes(s) == strip_trailing_slashes(s.take(m as int)),
            decreases m,
        {
            proof {
                assert(s.take(m as int).last() == s[m - 1]);
                assert(s.take(m as int).drop_last() =~= s.take(m - 1));
            }
            m = m - 1;
        }
        proof {
            if m > 0 {
                assert(s.take(m as int).last() == s[m - 1]);
            }
            assert(strip_trailing_slashes(s) == s.take(m as int));
        }
        let ghost p = s.take(m as int);
        let mut start: usize = m;
        proof {
            assert(p.take(m as int) =~= p);
        }
        while start > 0 && filename.get_char(start - 1) != '/'
            invariant
                s == filename@,
                p == s.take(m as int),
                start <= m <= n,
                n == s.len(),
                last_slash_end(p) == last_slash_end(p.take(start as int)),
            decreases start,
        {
            proof {
                assert(p.take(start as int).last() == p[start - 1]);
                assert(p[start - 1] == s[start - 1]);
                assert(p.take(start as int).drop_last() =~= p.take(start - 1));
            }
            start = start - 1;
        }
        proof {
            if start > 0 {
                assert(p.take(start as int).last() == p[start - 1]);
                assert(p[start - 1] == s[start - 1]);
            }
            assert(last_slash_end(p) == start as int);
        }
        let ghost comp = p.skip(start as int);
        if m - start == 2 && filename.get_char(start) == '.' && filename.get_char(start + 1)
            == '.' {
            proof {
                assert(comp =~= seq!['.', '.']);
            }
            return None;
        }
        proof {
            assert(comp != seq!['.', '.']) by {
                if comp == seq!['.', '.'] {
                    assert(comp.len() == 2);
                    assert(comp[0] == '.' && comp[1] == '.');
                    assert(s[start as int] == '.' && s[start + 1] == '.');
                }
            }
        }
        let mut j: usize = m;
        proof {
            assert(comp.take(m - start) =~= comp);
        }
        while j > start && filename.get_char(j - 1) != '.'
            invariant
                s == filename@,
                p == s.take(m as int),
                start <= j <= m <= n,
                n == s.len(),
                comp == p.skip(start as int),
                last_dot_at(comp) == last_dot_at(comp.take(j - start)),
            decreases j,
        {
            proof {
                assert(comp.take(j - start).last() == comp[j - start - 1]);
                assert(comp[j - start - 1] == s[j - 1]);
                assert(comp.take(j - start).drop_last() =~= comp.take(j - 1 - start));
            }
            j = j - 1;
        }
        if j > start && j - 1 > start {
            proof {
                assert(comp.take(j - start).last() == comp[j - start - 1]);
                assert(comp[j - start - 1] == s[j - 1]);
                assert(last_dot_at(comp) == j - 1 - start);
                assert(s.subrange(j as int, m as int) =~= comp.skip(j - start));
            }
            Some(filename.substring_char(j, m))
        } else {
            proof {
                if j == start {
                    assert(comp.take(0) =~= Seq::<char>::empty());
                    assert(last_dot_at(comp) == -1);
                } else {
                    assert(comp.take(j - start).last() == comp[j - start - 1]);
                    assert(comp[j - start - 1] == s[j - 1]);
                    assert(last_dot_at(comp) == j - 1 - start);
                }
            }
            None
        }
    }

    /// Considers one file for the scan: resolves its extension against
    /// the language table, classifies its bytes, and folds the record
    /// into the extension's aggregate. A file without an extension, with
    /// an unrecognized one, or whose counts would overflow an aggregate
    /// is skipped and leaves the result untouched; `counted` says which
    /// happened.
    pub fn record_file(&mut self, path: &str, contents: &Vec<u8>) -> (counted: bool)
        requires
            old(self).wf(),
        ensures
            final(self).wf(),
            ({
                let stat = file_stat_of(contents@);
                match extension_of(path@) {
                    Some(e) => {
                        if is_recognized(e) && old(self).room_for(e, stat) {
                            &&& counted
                            &&& final(self).stat_for(e) == (match old(self).stat_for(e) {
                                None => Some(stat),
                                Some(prev) => Some(combined(prev, stat)),
                            })
                            &&& forall|k: Seq<char>|
                                k != e ==> #[trigger] final(self).stat_for(k) == old(
                                    self,
                                ).stat_for(k)
                        } else {
                            !counted && *final(self) == *old(self)
                        }
                    },
                    None => !counted && *final(self) == *old(self),
                }
            }),
    {
        let ext_opt = Self::get_extension_from_filename(path);
        match ext_opt {
            None => false,
            Some(ext) => {
                let name = get_language_name(ext);
                if str_eq(name, "unrecognized") {
                    return false;
                }
                let info = classify(contents);
                if !self.fits(ext, &info) {
                    return false;
                }
                self.update_file_info(ext, info);
                true
            },
        }
    }

    /// Folds one file's record into the aggregate of its extension: the
    /// first file seen for an extension becomes its aggregate verbatim,
    /// a later one is added field by field. No other extension changes.
    pub fn update_file_info(&mut self, file_ext: &str, new_info: FileInfo)
        requires
            old(self).wf(),
            old(self).room_for(file_ext@, new_info),
        ensures
            final(self).wf(),
            final(self).stat_for(file_ext@) == (match old(self).stat_for(file_ext@) {
                None => Some(new_info),
                Some(prev) => Some(combined(prev, new_info)),
            }),
            forall|k: Seq<char>|
                k != file_ext@ ==> #[trigger] final(self).stat_for(k) == old(self).stat_for(k),
            final(self).spec_len() == (if old(self).stat_for(file_ext@) is Some {
                old(self).spec_len() as int
            } else {
                old(self).spec_len() + 1int
            }),
    {
        match find_key(&self.counts, file_ext) {
            Some(i) => {
                proof {
                    lemma_seq_get_at_index(self.counts@, file_ext@, i as int);
                }
                let prev = self.counts[i].1;
                let mut merged = prev;
                merged.update(new_info);
                proof {
                    assert(merged =~= combined(prev, new_info));
                }
                self.counts[i].1 = merged;
                proof {
                    let up = self.counts@;
                    let olds = old(self).counts@;
                    assert(up =~= olds.update(i as int, up[i as int]));
                    assert(up[i as int].0@ == file_ext@);
                    assert forall|k: Seq<char>| true implies #[trigger] seq_get(up, k) == (if k
                        == file_ext@ {
                        Some(merged)
                    } else {
                        seq_get(olds, k)
                    }) by {
                        lemma_seq_get_update(olds, i as int, up[i as int], k);
                    }
                }
            },
            None => {
                proof {
                    lemma_seq_get_absent(self.counts@, file_ext@);
                }
                let pair = (file_ext.to_owned(), new_info);
                self.counts.push(pair);
                proof {
                    let up = self.counts@;
                    let olds = old(self).counts@;
                    assert(up == olds.push(up[olds.len() as int]));
                    assert forall|k: Seq<char>| true implies #[trigger] seq_get(up, k) == (if k
                        == file_ext@ {
                        Some(new_info)
                    } else {
                        seq_get(olds, k)
                    }) by {
                        lemma_seq_get_push(olds, up[olds.len() as int], k);
                    }
                }
            },
        }
    }
}

/// When an entry with key `k` stands at `i`, the lookup finds some
/// record for `k`, shadowed or not.
proof fn lemma_seq_get_at_index_some(s: Seq<(String, FileInfo)>, k: Seq<char>, i: int)
    requires
        0 <= i < s.len(),
        s[i].0@ == k,
    ensures
        seq_get(s, k) is Some,
    decreases i,
{
    if i > 0 && s[0].0@ != k {
        lemma_seq_get_at_index_some(s.drop_first(), k, i - 1);
    }
}

} // verus!
