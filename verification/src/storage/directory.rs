//! The archive directory as a list of named files, and the names of the
//! numbered segments in it.
use vstd::prelude::*;
use vstd::slice::slice_subrange;
use crate::text::{
    chars_of, format_padded, lemma_padded_parses, padded_decimal, parse_number, parsed_number,
    same_text, string_of,
};

verus! {

/// One file: its name and its bytes.
pub struct DirFile {
    pub name: String,
    pub data: Vec<u8>,
}

#[verifier::ext_equal]
pub ghost struct FileView {
    pub name: Seq<char>,
    pub data: Seq<u8>,
}

impl DeepView for DirFile {
    type V = FileView;

    open spec fn deep_view(&self) -> FileView {
        FileView { name: self.name@, data: self.data@ }
    }
}

/// The position of the first file of a name, or the number of files.
pub open spec fn first_at(files: Seq<FileView>, name: Seq<char>) -> nat
    decreases files.len(),
{
    if files.len() == 0 || files[0].name == name {
        0
    } else {
        1 + first_at(files.skip(1), name)
    }
}

pub proof fn lemma_first_at(files: Seq<FileView>, name: Seq<char>)
    ensures
        first_at(files, name) <= files.len(),
        first_at(files, name) < files.len() ==> files[first_at(files, name) as int].name == name,
        forall|j: int| 0 <= j < first_at(files, name) ==> (#[trigger] files[j]).name != name,
    decreases files.len(),
{
    if files.len() > 0 && files[0].name != name {
        let rest = files.skip(1);
        lemma_first_at(rest, name);
        assert forall|j: int| 0 <= j < first_at(files, name) implies (#[trigger] files[j]).name
            != name by {
            if j > 0 {
                assert(rest[j - 1] == files[j]);
            }
        }
    }
}

/// The position with these properties is the first one.
pub proof fn lemma_is_first_at(files: Seq<FileView>, name: Seq<char>, k: int)
    requires
        0 <= k <= files.len(),
        k < files.len() ==> files[k].name == name,
        forall|j: int| 0 <= j < k ==> (#[trigger] files[j]).name != name,
    ensures
        first_at(files, name) == k,
{
    lemma_first_at(files, name);
    let f = first_at(files, name) as int;
    if f < k {
        assert(files[f].name != name);
    }
    if k < f {
        assert(files[k].name != name);
    }
}

/// The bytes of the file of a name.
pub open spec fn lookup(files: Seq<FileView>, name: Seq<char>) -> Option<Seq<u8>> {
    let at = first_at(files, name) as int;
    if at < files.len() {
        Some(files[at].data)
    } else {
        None
    }
}

/// The files after one was written whole: replaced, or put at the end.
pub open spec fn written(files: Seq<FileView>, name: Seq<char>, data: Seq<u8>) -> Seq<FileView> {
    let at = first_at(files, name) as int;
    if at < files.len() {
        files.update(at, FileView { name, data })
    } else {
        files.push(FileView { name, data })
    }
}

/// The bytes of a file, none where there is no such file.
pub open spec fn bytes_of(files: Seq<FileView>, name: Seq<char>) -> Seq<u8> {
    match lookup(files, name) {
        Some(b) => b,
        None => Seq::empty(),
    }
}

/// Writing one file changes what is found under its name and nothing else.
pub proof fn lemma_lookup_written(
    files: Seq<FileView>,
    name: Seq<char>,
    data: Seq<u8>,
    other: Seq<char>,
)
    ensures
        lookup(written(files, name, data), other) == if other == name {
            Some(data)
        } else {
            lookup(files, other)
        },
{
    let new = written(files, name, data);
    let at = first_at(files, name) as int;
    lemma_first_at(files, name);
    lemma_first_at(files, other);
    let o = first_at(files, other) as int;
    if other == name {
        assert forall|j: int| 0 <= j < at implies (#[trigger] new[j]).name != name by {
            assert(files[j].name != name);
        }
        lemma_is_first_at(new, name, at);
    } else {
        let k = if o < files.len() {
            o
        } else {
            new.len() as int
        };
        assert forall|j: int| 0 <= j < k implies (#[trigger] new[j]).name != other by {
            if j < files.len() && j != at {
                assert(files[j].name != other);
            }
        }
        lemma_is_first_at(new, other, k);
    }
}

/// No two files have the same name.
pub open spec fn names_distinct(files: Seq<FileView>) -> bool {
    forall|i: int, j: int|
        0 <= i < j < files.len() ==> (#[trigger] files[i]).name != (#[trigger] files[j]).name
}

pub proof fn lemma_written_keeps_names_distinct(
    files: Seq<FileView>,
    name: Seq<char>,
    data: Seq<u8>,
)
    requires
        names_distinct(files),
    ensures
        names_distinct(written(files, name, data)),
{
    lemma_first_at(files, name);
    let new = written(files, name, data);
    let at = first_at(files, name) as int;
    assert forall|i: int, j: int| 0 <= i < j < new.len() implies (#[trigger] new[i]).name != (
    #[trigger] new[j]).name by {
        if j < files.len() {
            assert(files[i].name != files[j].name);
        } else {
            assert(files[i].name != name);
        }
    }
}

/// The name of a segment's data file.
pub open spec fn data_name(segment: u32) -> Seq<char> {
    "data_"@ + padded_decimal(segment as nat, 3) + ".cryo"@
}

/// The name of a segment's index file.
pub open spec fn index_name(segment: u32) -> Seq<char> {
    "index_"@ + padded_decimal(segment as nat, 3) + ".cryo"@
}

/// The segment number in the name of a data file.
pub open spec fn segment_number(name: Seq<char>) -> Option<u32> {
    let n = name.len() as int;
    if n >= 10 && name.take(5) == "data_"@ && name.skip(n - 5) == ".cryo"@ {
        match parsed_number(name.subrange(5, n - 5), u32::MAX as nat) {
            Some(v) => Some(v as u32),
            None => None,
        }
    } else {
        None
    }
}

/// A segment's number is read back from the name of its data file.
pub proof fn lemma_segment_number_of_data_name(segment: u32)
    ensures
        segment_number(data_name(segment)) == Some(segment),
{
    reveal_strlit("data_");
    reveal_strlit(".cryo");
    let digits = padded_decimal(segment as nat, 3);
    let name = data_name(segment);
    let n = name.len() as int;
    assert(name.take(5) =~= "data_"@);
    assert(name.skip(n - 5) =~= ".cryo"@);
    assert(name.subrange(5, n - 5) =~= digits);
    lemma_padded_parses(segment as nat, 3, u32::MAX as nat);
}

/// Different segments have different data files.
pub proof fn lemma_data_names_differ(a: u32, b: u32)
    requires
        a != b,
    ensures
        data_name(a) != data_name(b),
{
    lemma_segment_number_of_data_name(a);
    lemma_segment_number_of_data_name(b);
}

/// No index file is taken for a data file.
pub proof fn lemma_index_name_is_no_data_name(segment: u32)
    ensures
        segment_number(index_name(segment)) is None,
{
    reveal_strlit("data_");
    reveal_strlit("index_");
    let name = index_name(segment);
    assert(name[0] == 'i');
    assert(name.take(5)[0] == 'i');
}

/// Different segments have different index files.
pub proof fn lemma_index_names_differ(a: u32, b: u32)
    requires
        a != b,
    ensures
        index_name(a) != index_name(b),
{
    reveal_strlit("index_");
    reveal_strlit(".cryo");
    lemma_padded_parses(a as nat, 3, u32::MAX as nat);
    lemma_padded_parses(b as nat, 3, u32::MAX as nat);
    let x = index_name(a);
    let y = index_name(b);
    assert(x.subrange(6, x.len() - 5) =~= padded_decimal(a as nat, 3));
    assert(y.subrange(6, y.len() - 5) =~= padded_decimal(b as nat, 3));
}

/// A number put into an ascending sequence.
pub open spec fn inserted(s: Seq<u32>, n: u32) -> Seq<u32>
    decreases s.len(),
{
    if s.len() == 0 || s.last() <= n {
        s.push(n)
    } else {
        inserted(s.drop_last(), n).push(s.last())
    }
}

/// The numbers of the segments whose data files are listed, ascending.
pub open spec fn segments(files: Seq<FileView>) -> Seq<u32>
    decreases files.len(),
{
    if files.len() == 0 {
        Seq::empty()
    } else {
        let front = segments(files.drop_last());
        match segment_number(files.last().name) {
            Some(n) => inserted(front, n),
            None => front,
        }
    }
}

/// The number of the active segment: the highest one, or 1.
pub open spec fn active_segment(files: Seq<FileView>) -> u32 {
    let s = segments(files);
    if s.len() > 0 && s.last() > 1 {
        s.last()
    } else {
        1
    }
}

proof fn lemma_segments_by_names(a: Seq<FileView>, b: Seq<FileView>)
    requires
        a.len() == b.len(),
        forall|i: int| 0 <= i < a.len() ==> (#[trigger] a[i]).name == b[i].name,
    ensures
        segments(a) == segments(b),
    decreases a.len(),
{
    if a.len() > 0 {
        let x = a.drop_last();
        let y = b.drop_last();
        assert forall|i: int| 0 <= i < x.len() implies (#[trigger] x[i]).name == y[i].name by {
            assert(x[i] == a[i]);
        }
        lemma_segments_by_names(x, y);
        assert(a[a.len() - 1].name == b[b.len() - 1].name);
    }
}

/// Writing a file adds a segment only where it is a new data file.
pub proof fn lemma_segments_written(files: Seq<FileView>, name: Seq<char>, data: Seq<u8>)
    ensures
        segments(written(files, name, data)) == if lookup(files, name) is Some {
            segments(files)
        } else {
            match segment_number(name) {
                Some(n) => inserted(segments(files), n),
                None => segments(files),
            }
        },
{
    lemma_first_at(files, name);
    let new = written(files, name, data);
    if lookup(files, name) is Some {
        assert forall|i: int| 0 <= i < files.len() implies (#[trigger] files[i]).name
            == new[i].name by {}
        lemma_segments_by_names(files, new);
    } else {
        assert(new.drop_last() =~= files);
    }
}

pub open spec fn ascending(s: Seq<u32>) -> bool {
    forall|i: int, j: int| 0 <= i < j < s.len() ==> s[i] <= s[j]
}

pub proof fn lemma_inserted(s: Seq<u32>, n: u32)
    requires
        ascending(s),
    ensures
        ascending(inserted(s, n)),
        inserted(s, n).len() == s.len() + 1,
        forall|m: u32| #[trigger] inserted(s, n).contains(m) <==> s.contains(m) || m == n,
        inserted(s, n).last() == if s.len() > 0 && s.last() > n {
            s.last()
        } else {
            n
        },
    decreases s.len(),
{
    let r = inserted(s, n);
    if s.len() == 0 || s.last() <= n {
        assert forall|m: u32| r.contains(m) <==> s.contains(m) || m == n by {
            if s.contains(m) {
                let i = choose|i: int| 0 <= i < s.len() && s[i] == m;
                assert(r[i] == m);
            }
            assert(r[s.len() as int] == n);
            if r.contains(m) && m != n {
                let i = choose|i: int| 0 <= i < r.len() && r[i] == m;
                assert(s[i] == m);
            }
        }
        assert forall|i: int, j: int| 0 <= i < j < r.len() implies r[i] <= r[j] by {
            if j == s.len() {
                assert(s[i] <= s.last());
            }
        }
    } else {
        let front = s.drop_last();
        lemma_inserted(front, n);
        let f = inserted(front, n);
        assert forall|m: u32| r.contains(m) <==> s.contains(m) || m == n by {
            if s.contains(m) {
                let i = choose|i: int| 0 <= i < s.len() && s[i] == m;
                if i < front.len() {
                    assert(front[i] == m);
                    assert(f.contains(m));
                    let k = choose|k: int| 0 <= k < f.len() && f[k] == m;
                    assert(r[k] == m);
                } else {
                    assert(r[f.len() as int] == m);
                }
            }
            if m == n {
                assert(f.contains(m));
                let k = choose|k: int| 0 <= k < f.len() && f[k] == m;
                assert(r[k] == m);
            }
            if r.contains(m) && m != n {
                let i = choose|i: int| 0 <= i < r.len() && r[i] == m;
                if i < f.len() {
                    assert(f[i] == m);
                    assert(f.contains(m));
                    assert(front.contains(m));
                    let k = choose|k: int| 0 <= k < front.len() && front[k] == m;
                    assert(s[k] == m);
                } else {
                    assert(s[s.len() - 1] == m);
                }
            }
        }
        assert forall|i: int, j: int| 0 <= i < j < r.len() implies r[i] <= r[j] by {
            if j == f.len() {
                assert(f[i] <= f.last());
                if front.len() > 0 {
                    assert(s[front.len() - 1] <= s[s.len() - 1]);
                }
            }
        }
    }
}

/// The segments come in ascending order, one for each listed data file.
pub proof fn lemma_segments(files: Seq<FileView>)
    ensures
        ascending(segments(files)),
        forall|n: u32|
            segments(files).contains(n) <==> exists|i: int|
                0 <= i < files.len() && segment_number((#[trigger] files[i]).name) == Some(n),
    decreases files.len(),
{
    if files.len() > 0 {
        let front = files.drop_last();
        lemma_segments(front);
        let last = files.last().name;
        if segment_number(last) is Some {
            lemma_inserted(segments(front), segment_number(last)->0);
        }
        assert forall|n: u32|
            segments(files).contains(n) <==> exists|i: int|
                0 <= i < files.len() && segment_number((#[trigger] files[i]).name) == Some(n) by {
            if segments(front).contains(n) {
                let i = choose|i: int|
                    0 <= i < front.len() && segment_number((#[trigger] front[i]).name) == Some(n);
                assert(files[i] == front[i]);
            }
            if segment_number(last) == Some(n) {
                assert(files[files.len() - 1].name == last);
            }
            if exists|i: int|
                0 <= i < files.len() && segment_number((#[trigger] files[i]).name) == Some(n) {
                let i = choose|i: int|
                    0 <= i < files.len() && segment_number((#[trigger] files[i]).name) == Some(n);
                if i < front.len() {
                    assert(front[i] == files[i]);
                    assert(segments(front).contains(n));
                }
            }
        }
    }
}

/// No data file lies behind the active segment.
pub proof fn lemma_active_is_highest(files: Seq<FileView>, n: u32)
    requires
        lookup(files, data_name(n)) is Some,
    ensures
        n <= active_segment(files),
{
    lemma_first_at(files, data_name(n));
    lemma_segment_number_of_data_name(n);
    lemma_segments(files);
    let at = first_at(files, data_name(n)) as int;
    assert(segment_number(files[at].name) == Some(n));
    let s = segments(files);
    assert(s.contains(n));
    let k = choose|k: int| 0 <= k < s.len() && s[k] == n;
    if k < s.len() - 1 {
        assert(s[k] <= s[s.len() - 1]);
    }
}

fn insert_ascending(v: &mut Vec<u32>, n: u32)
    ensures
        final(v)@ == inserted(old(v)@, n),
{
    let ghost all = v@;
    let mut at: usize = v.len();
    assert(all.take(at as int) =~= all);
    assert(inserted(all.take(at as int), n) + all.skip(at as int) =~= inserted(all, n));
    while at > 0 && v[at - 1] > n
        invariant
            v@ == all,
            at <= all.len(),
            inserted(all.take(at as int), n) + all.skip(at as int) == inserted(all, n),
        decreases at,
    {
        proof {
            let t = all.take(at as int);
            assert(t.last() == all[at - 1]);
            assert(t.drop_last() =~= all.take(at - 1));
            assert(inserted(t, n) == inserted(all.take(at - 1), n).push(all[at - 1]));
            assert(inserted(all.take(at - 1), n).push(all[at - 1]) + all.skip(at as int)
                =~= inserted(all.take(at - 1), n) + all.skip(at - 1));
        }
        at -= 1;
    }
    v.insert(at, n);
    proof {
        let t = all.take(at as int);
        if at > 0 {
            assert(t.last() == all[at - 1]);
        }
        assert(inserted(t, n) == t.push(n));
        assert(v@ =~= t.push(n) + all.skip(at as int));
    }
}

/// The name of a segment's data file.
pub fn data_file_name(segment: u32) -> (r: String)
    ensures
        r@ == data_name(segment),
{
    let mut out = String::new();
    out.append("data_");
    let digits = string_of(format_padded(segment as u64, 3).as_slice());
    out.append(digits.as_str());
    out.append(".cryo");
    assert(out@ =~= data_name(segment));
    out
}

/// The name of a segment's index file.
pub fn index_file_name(segment: u32) -> (r: String)
    ensures
        r@ == index_name(segment),
{
    let mut out = String::new();
    out.append("index_");
    let digits = string_of(format_padded(segment as u64, 3).as_slice());
    out.append(digits.as_str());
    out.append(".cryo");
    assert(out@ =~= index_name(segment));
    out
}

/// The segment number in the name of a data file.
pub fn parse_segment(name: &str) -> (r: Option<u32>)
    ensures
        r == segment_number(name@),
{
    let chars = chars_of(name);
    let n: usize = chars.len();
    if n < 10 {
        return None;
    }
    let all = chars.as_slice();
    let prefix = string_of(slice_subrange(all, 0, 5));
    let suffix = string_of(slice_subrange(all, n - 5, n));
    assert(name@.subrange(0, 5) =~= name@.take(5));
    assert(name@.subrange(n - 5, n as int) =~= name@.skip(n - 5));
    if !same_text(prefix.as_str(), "data_") || !same_text(suffix.as_str(), ".cryo") {
        return None;
    }
    match parse_number(slice_subrange(all, 5, n - 5), u32::MAX as u64) {
        Some(v) => Some(v as u32),
        None => None,
    }
}

/// The archive directory.
pub struct Directory {
    files: Vec<DirFile>,
}

impl View for Directory {
    type V = Seq<FileView>;

    closed spec fn view(&self) -> Seq<FileView> {
        self.files.deep_view()
    }
}

impl Directory {
    /// A directory without files.
    pub fn new() -> (r: Self)
        ensures
            r@ == Seq::<FileView>::empty(),
    {
        let r = Directory { files: Vec::new() };
        assert(r@ =~= Seq::<FileView>::empty());
        r
    }

    /// The number of files.
    pub fn len(&self) -> (r: usize)
        ensures
            r == self@.len(),
    {
        self.files.len()
    }

    /// One of the files, in the order in which they were first written.
    pub fn file(&self, i: usize) -> (r: &DirFile)
        requires
            i < self@.len(),
        ensures
            r.deep_view() == self@[i as int],
    {
        &self.files[i]
    }

    fn find(&self, name: &str) -> (r: usize)
        ensures
            r == first_at(self@, name@),
    {
        let mut i: usize = 0;
        while i < self.files.len()
            invariant
                i <= self.files@.len(),
                self@ == self.files.deep_view(),
                forall|j: int| 0 <= j < i ==> (#[trigger] self@[j]).name != name@,
            decreases self.files@.len() - i,
        {
            assert(self@[i as int] == self.files@[i as int].deep_view());
            if same_text(self.files[i].name.as_str(), name) {
                proof {
                    lemma_is_first_at(self@, name@, i as int);
                }
                return i;
            }
            i += 1;
        }
        proof {
            lemma_is_first_at(self@, name@, i as int);
        }
        i
    }

    /// The bytes of a file, if there is one of this name.
    pub fn read(&self, name: &str) -> (r: Option<&Vec<u8>>)
        ensures
            match r {
                Some(b) => lookup(self@, name@) == Some(b@),
                None => lookup(self@, name@) is None,
            },
    {
        let at: usize = self.find(name);
        if at < self.files.len() {
            assert(self@[at as int] == self.files@[at as int].deep_view());
            Some(&self.files[at].data)
        } else {
            None
        }
    }

    /// Replaces a file's bytes, or adds the file.
    pub fn write(&mut self, name: String, data: Vec<u8>)
        ensures
            final(self)@ == written(old(self)@, name@, data@),
    {
        let at: usize = self.find(name.as_str());
        let file = DirFile { name, data };
        if at < self.files.len() {
            self.files.set(at, file);
        } else {
            self.files.push(file);
        }
        assert(self@ =~= written(old(self)@, name@, data@));
    }

    /// Puts bytes at the end of a file, which is made where there is none.
    pub fn append(&mut self, name: String, data: &[u8])
        ensures
            final(self)@ == written(old(self)@, name@, bytes_of(old(self)@, name@) + data@),
    {
        let at: usize = self.find(name.as_str());
        if at < self.files.len() {
            let ghost before = self.files.deep_view();
            self.files[at].data.extend_from_slice(data);
            assert(self.files@[at as int].data@ =~= before[at as int].data + data@);
            assert(self.files.deep_view() =~= before.update(
                at as int,
                FileView { name: name@, data: before[at as int].data + data@ },
            )) by {
                lemma_first_at(before, name@);
            }
        } else {
            let mut bytes: Vec<u8> = Vec::new();
            bytes.extend_from_slice(data);
            assert(bytes@ =~= Seq::<u8>::empty() + data@);
            self.files.push(DirFile { name, data: bytes });
            assert(self@ =~= written(
                old(self)@,
                name@,
                bytes_of(old(self)@, name@) + data@,
            ));
        }
    }

    /// The numbers of all segments, ascending.
    pub fn list_segments(&self) -> (r: Vec<u32>)
        ensures
            r@ == segments(self@),
    {
        let mut out: Vec<u32> = Vec::new();
        let mut i: usize = 0;
        assert(self@.take(0) =~= Seq::<FileView>::empty());
        while i < self.files.len()
            invariant
                i <= self.files@.len(),
                self@ == self.files.deep_view(),
                out@ == segments(self@.take(i as int)),
            decreases self.files@.len() - i,
        {
            proof {
                let t = self@.take(i + 1);
                assert(t.drop_last() =~= self@.take(i as int));
                assert(t.last() == self@[i as int]);
                assert(self@[i as int] == self.files@[i as int].deep_view());
            }
            match parse_segment(self.files[i].name.as_str()) {
                Some(n) => insert_ascending(&mut out, n),
                None => {},
            }
            i += 1;
        }
        assert(self@.take(i as int) =~= self@);
        out
    }

    /// Find the active (latest) data file number
    pub fn get_active_segment_num(&self) -> (r: u32)
        ensures
            r == active_segment(self@),
    {
        let all = self.list_segments();
        if all.len() > 0 && all[all.len() - 1] > 1 {
            all[all.len() - 1]
        } else {
            1
        }
    }
}

} // verus!
