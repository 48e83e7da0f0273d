//! A record that keeps the line whole and holds byte ranges into it, in
//! place of owned copies of its fields.
use vstd::prelude::*;
use vstd::utf8::{
    encode_utf8, encode_utf8_valid_utf8, is_char_boundary, length_of_first_scalar, pop_first_scalar,
    valid_utf8, valid_utf8_split,
};

verus! {

/// A byte range of a line. Its end is never zero: the type invariant
/// `inv` holds of every value.
pub struct Range {
    start: usize,
    end: usize,
}

impl Range {
    #[verifier::type_invariant]
    spec fn inv(&self) -> bool {
        self.end > 0
    }

    pub closed spec fn spec_start(&self) -> nat {
        self.start as nat
    }

    pub closed spec fn spec_end(&self) -> nat {
        self.end as nat
    }

    pub fn end(&self) -> (r: usize)
        ensures
            r == self.spec_end(),
            r >= 1,
    {
        proof {
            use_type_invariant(self);
        }
        self.end
    }
}

/// The range lies in `bytes`, on character boundaries.
pub open spec fn range_ok(bytes: Seq<u8>, r: Range) -> bool {
    &&& r.spec_start() <= r.spec_end() <= bytes.len()
    &&& is_char_boundary(bytes, r.spec_start() as int)
    &&& is_char_boundary(bytes, r.spec_end() as int)
}

pub open spec fn opt_range_ok(bytes: Seq<u8>, r: Option<Range>) -> bool {
    r matches Some(x) ==> range_ok(bytes, x)
}

/// What a slice of `bytes` by an optional range reads.
pub open spec fn slice_matches(bytes: Seq<u8>, r: Option<Range>, s: Option<&str>) -> bool {
    match (r, s) {
        (Some(x), Some(t)) => encode_utf8(t@) == bytes.subrange(x.spec_start() as int, x.spec_end() as int),
        (None, None) => true,
        _ => false,
    }
}

/// A boundary below `b` stays a boundary of the first `b` bytes.
proof fn lemma_boundary_in_prefix(bytes: Seq<u8>, a: int, b: int)
    requires
        valid_utf8(bytes),
        is_char_boundary(bytes, a),
        is_char_boundary(bytes, b),
        0 <= a <= b <= bytes.len(),
    ensures
        valid_utf8(bytes.subrange(0, b)),
        is_char_boundary(bytes.subrange(0, b), a),
    decreases bytes.len(),
{
    valid_utf8_split(bytes, b);
    if a > 0 {
        let p = bytes.subrange(0, b);
        let len = length_of_first_scalar(bytes);
        let tail = pop_first_scalar(bytes);
        assert(p[0] == bytes[0]);
        assert(length_of_first_scalar(p) == len);
        assert(valid_utf8(tail));
        assert(is_char_boundary(tail, a - len));
        assert(is_char_boundary(tail, b - len));
        assert(0 <= len <= bytes.len());
        lemma_boundary_in_prefix(tail, a - len, b - len);
        assert(pop_first_scalar(p) =~= tail.subrange(0, b - len));
    }
}

/// The text of `line` between the ends of `r`.
fn slice<'a>(line: &'a str, r: &Range) -> (s: &'a str)
    requires
        range_ok(encode_utf8(line@), *r),
    ensures
        encode_utf8(s@) == encode_utf8(line@).subrange(r.spec_start() as int, r.spec_end() as int),
{
    proof {
        encode_utf8_valid_utf8(line@);
        lemma_boundary_in_prefix(encode_utf8(line@), r.start as int, r.end as int);
    }
    let (head, _) = line.split_at(r.end);
    let (_, s) = head.split_at(r.start);
    proof {
        assert(encode_utf8(s@) =~= encode_utf8(line@).subrange(r.start as int, r.end as int));
    }
    s
}

/// A log line with its fields as ranges into it.
pub struct Log {
    line: String,
    pairs: Vec<(Range, Range)>,
    level: Option<Range>,
    path: Option<Range>,
    message: Option<Range>,
}

impl Log {
    pub closed spec fn spec_line(&self) -> Seq<char> {
        self.line@
    }

    pub closed spec fn spec_level(&self) -> Option<Range> {
        self.level
    }

    pub closed spec fn spec_path(&self) -> Option<Range> {
        self.path
    }

    pub closed spec fn spec_message(&self) -> Option<Range> {
        self.message
    }

    pub closed spec fn spec_pairs(&self) -> Seq<(Range, Range)> {
        self.pairs@
    }

    /// Every range lies in the line, on character boundaries.
    pub open spec fn wf(&self) -> bool {
        let b = encode_utf8(self.spec_line());
        &&& opt_range_ok(b, self.spec_level())
        &&& opt_range_ok(b, self.spec_path())
        &&& opt_range_ok(b, self.spec_message())
        &&& forall|i: int|
            0 <= i < self.spec_pairs().len() ==> range_ok(b, (#[trigger] self.spec_pairs()[i]).0)
                && range_ok(b, self.spec_pairs()[i].1)
    }

    /// The line, with no field found yet.
    pub fn new(line: String) -> (r: Log)
        ensures
            r.wf(),
            r.spec_line() == line@,
            r.spec_level() is None,
            r.spec_path() is None,
            r.spec_message() is None,
            r.spec_pairs().len() == 0,
    {
        Log { line, pairs: Vec::new(), level: None, path: None, message: None }
    }

    fn field<'a>(&'a self, r: &Option<Range>) -> (s: Option<&'a str>)
        requires
            opt_range_ok(encode_utf8(self.line@), *r),
        ensures
            slice_matches(encode_utf8(self.line@), *r, s),
    {
        match r {
            Some(x) => Some(slice(self.line.as_str(), x)),
            None => None,
        }
    }

    pub fn path(&self) -> (r: Option<&str>)
        requires
            self.wf(),
        ensures
            slice_matches(encode_utf8(self.spec_line()), self.spec_path(), r),
    {
        self.field(&self.path)
    }

    pub fn level(&self) -> (r: Option<&str>)
        requires
            self.wf(),
        ensures
            slice_matches(encode_utf8(self.spec_line()), self.spec_level(), r),
    {
        self.field(&self.level)
    }

    pub fn message(&self) -> (r: Option<&str>)
        requires
            self.wf(),
        ensures
            slice_matches(encode_utf8(self.spec_line()), self.spec_message(), r),
    {
        self.field(&self.message)
    }

    /// The text of each key and value, in order.
    pub fn pairs(&self) -> (r: Vec<(&str, &str)>)
        requires
            self.wf(),
        ensures
            r@.len() == self.spec_pairs().len(),
            forall|i: int| 0 <= i < r@.len() ==> {
                let b = encode_utf8(self.spec_line());
                let (k, v) = #[trigger] self.spec_pairs()[i];
                &&& encode_utf8(r@[i].0@) == b.subrange(k.spec_start() as int, k.spec_end() as int)
                &&& encode_utf8(r@[i].1@) == b.subrange(v.spec_start() as int, v.spec_end() as int)
            },
    {
        let mut out: Vec<(&str, &str)> = Vec::new();
        let mut i: usize = 0;
        while i < self.pairs.len()
            invariant
                self.wf(),
                i <= self.pairs@.len(),
                out@.len() == i,
                forall|j: int| 0 <= j < i ==> {
                    let b = encode_utf8(self.spec_line());
                    let (k, v) = #[trigger] self.spec_pairs()[j];
                    &&& encode_utf8(out@[j].0@) == b.subrange(k.spec_start() as int, k.spec_end() as int)
                    &&& encode_utf8(out@[j].1@) == b.subrange(v.spec_start() as int, v.spec_end() as int)
                },
            decreases self.pairs@.len() - i,
        {
            let (k, v) = &self.pairs[i];
            assert(range_ok(encode_utf8(self.spec_line()), self.spec_pairs()[i as int].0)
                && range_ok(encode_utf8(self.spec_line()), self.spec_pairs()[i as int].1));
            let key = slice(self.line.as_str(), k);
            let value = slice(self.line.as_str(), v);
            out.push((key, value));
            i += 1;
        }
        out
    }
}

} // verus!
