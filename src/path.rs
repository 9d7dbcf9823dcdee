//! Dotted paths that address positions inside nested arrays and objects.
//!
//! A path is a sequence of segments joined by `.`; inside a key, `\` and `.`
//! are escaped as `\\` and `\.`.
use vstd::prelude::*;
use crate::text::{
    all_digits, chars_of, digit_value, digits_value, index_text, is_digit, lemma_nat_text,
    nat_text, string_of, push_all,
};

verus! {

/// One segment of a path: an object key or an array index.
#[derive(Debug, Clone, PartialEq, Eq)]
pub enum PathSegment {
    Key(String),
    Index(usize),
}

/// The mathematical form of a segment.
pub enum SegmentView {
    Key(Seq<char>),
    Index(nat),
}

impl PathSegment {
    pub open spec fn view(&self) -> SegmentView {
        match self {
            PathSegment::Key(k) => SegmentView::Key(k@),
            PathSegment::Index(i) => SegmentView::Index(*i as nat),
        }
    }
}

pub open spec fn segments_view(s: Seq<PathSegment>) -> Seq<SegmentView> {
    s.map_values(|x: PathSegment| x.view())
}

/// The escaped form of one character.
pub open spec fn escape_char(c: char) -> Seq<char> {
    if c == '\\' {
        seq!['\\', '\\']
    } else if c == '.' {
        seq!['\\', '.']
    } else {
        seq![c]
    }
}

/// The escaped form of a key: every `\` becomes `\\`, then every `.` becomes `\.`.
pub open spec fn escape(k: Seq<char>) -> Seq<char>
    decreases k.len(),
{
    if k.len() == 0 {
        Seq::empty()
    } else {
        escape_char(k[0]) + escape(k.skip(1))
    }
}

/// The text of one segment inside a path.
pub open spec fn segment_text(s: SegmentView) -> Seq<char> {
    match s {
        SegmentView::Key(k) => escape(k),
        SegmentView::Index(i) => nat_text(i),
    }
}

/// The segment texts joined with `.`; the empty list gives the empty path.
pub open spec fn join_spec(s: Seq<SegmentView>) -> Seq<char>
    decreases s.len(),
{
    if s.len() == 0 {
        Seq::empty()
    } else if s.len() == 1 {
        segment_text(s[0])
    } else {
        segment_text(s[0]) + seq!['.'] + join_spec(s.skip(1))
    }
}

/// Splits `s` on unescaped dots, unescaping `\\` and `\.`; `cur` is the
/// segment read so far. A `\` before any other character stays as it is.
pub open spec fn split(s: Seq<char>, cur: Seq<char>) -> Seq<Seq<char>>
    decreases s.len(),
{
    if s.len() == 0 {
        seq![cur]
    } else if s[0] == '\\' && s.len() > 1 && (s[1] == '\\' || s[1] == '.') {
        split(s.skip(2), cur.push(s[1]))
    } else if s[0] == '.' {
        seq![cur] + split(s.skip(1), Seq::empty())
    } else {
        split(s.skip(1), cur.push(s[0]))
    }
}

/// A segment text that is a base-10 number fitting in `usize` is an index;
/// anything else is a key.
pub open spec fn classify(t: Seq<char>) -> SegmentView {
    if all_digits(t) && digits_value(t) <= usize::MAX {
        SegmentView::Index(digits_value(t))
    } else {
        SegmentView::Key(t)
    }
}

/// The segments of a path; the empty path has none.
pub open spec fn parse_spec(p: Seq<char>) -> Seq<SegmentView> {
    if p.len() == 0 {
        Seq::empty()
    } else {
        split(p, Seq::empty()).map_values(|t: Seq<char>| classify(t))
    }
}

pub proof fn lemma_escape_append(a: Seq<char>, b: Seq<char>)
    ensures
        escape(a + b) == escape(a) + escape(b),
    decreases a.len(),
{
    if a.len() == 0 {
        assert(a + b =~= b);
    } else {
        assert((a + b).skip(1) =~= a.skip(1) + b);
        lemma_escape_append(a.skip(1), b);
        assert((a + b)[0] == a[0]);
    }
}

proof fn lemma_escape_single(c: char)
    ensures
        escape(seq![c]) == escape_char(c),
{
    assert(seq![c].skip(1) =~= Seq::<char>::empty());
    assert(escape(Seq::<char>::empty()) == Seq::<char>::empty());
    assert(seq![c][0] == c);
    assert(escape_char(c) + Seq::<char>::empty() =~= escape_char(c));
}

/// Escaping a character sequence.
pub fn escape_key(key: &str) -> (r: String)
    ensures
        r@ == escape(key@),
{
    let cs = chars_of(key);
    let mut out = String::new();
    let mut i: usize = 0;
    while i < cs.len()
        invariant
            i <= cs@.len(),
            cs@ == key@,
            out@ == escape(cs@.subrange(0, i as int)),
        decreases cs@.len() - i,
    {
        let c = cs[i];
        proof {
            lemma_escape_append(cs@.subrange(0, i as int), seq![c]);
            lemma_escape_single(c);
            assert(cs@.subrange(0, i + 1) =~= cs@.subrange(0, i as int) + seq![c]);
        }
        if c == '\\' {
            out.push('\\');
            out.push('\\');
        } else if c == '.' {
            out.push('\\');
            out.push('.');
        } else {
            out.push(c);
        }
        assert(out@ =~= escape(cs@.subrange(0, i + 1)));
        i = i + 1;
    }
    assert(cs@.subrange(0, cs@.len() as int) =~= cs@);
    out
}

proof fn lemma_join_push(s: Seq<SegmentView>, x: SegmentView)
    requires
        s.len() >= 1,
    ensures
        join_spec(s.push(x)) == join_spec(s) + seq!['.'] + segment_text(x),
    decreases s.len(),
{
    if s.len() == 1 {
        assert(s.push(x).skip(1) =~= seq![x]);
        assert(s.push(x)[0] == s[0]);
        assert(join_spec(seq![x]) == segment_text(x));
    } else {
        assert(s.push(x).skip(1) =~= s.skip(1).push(x));
        lemma_join_push(s.skip(1), x);
        assert(s.push(x)[0] == s[0]);
        let a = segment_text(s[0]);
        let d = seq!['.'];
        assert(join_spec(s) == a + d + join_spec(s.skip(1)));
        assert(join_spec(s.push(x)) == a + d + join_spec(s.skip(1).push(x)));
        assert(a + d + (join_spec(s.skip(1)) + d + segment_text(x)) =~= a + d + join_spec(s.skip(1)) + d + segment_text(x));
    }
}

/// The text of one segment.
fn segment_string(seg: &PathSegment) -> (r: String)
    ensures
        r@ == segment_text(seg.view()),
{
    match seg {
        PathSegment::Key(k) => escape_key(k.as_str()),
        PathSegment::Index(i) => index_text(*i),
    }
}

/// Joins segments into a path: escaped keys and decimal indices separated by `.`.
pub fn join(segments: &[PathSegment]) -> (r: String)
    ensures
        r@ == join_spec(segments_view(segments@)),
{
    let mut out = String::new();
    let mut i: usize = 0;
    while i < segments.len()
        invariant
            i <= segments@.len(),
            out@ == join_spec(segments_view(segments@.subrange(0, i as int))),
        decreases segments@.len() - i,
    {
        let t = segment_string(&segments[i]);
        let ghost pre = segments_view(segments@.subrange(0, i as int));
        assert(segments_view(segments@.subrange(0, i + 1)) =~= pre.push(segments[i as int].view()));
        if i > 0 {
            proof { lemma_join_push(pre, segments[i as int].view()); }
            out.push('.');
        } else {
            assert(pre.push(segments[0].view()).skip(1).len() == 0);
        }
        push_all(&mut out, t.as_str());
        i = i + 1;
    }
    assert(segments@.subrange(0, segments@.len() as int) =~= segments@);
    out
}

/// Classifies one unescaped segment text.
pub fn make_segment(s: &str) -> (r: PathSegment)
    ensures
        r.view() == classify(s@),
{
    let cs = chars_of(s);
    let mut ok = cs.len() > 0;
    let mut value: usize = 0;
    let mut i: usize = 0;
    while ok && i < cs.len()
        invariant
            i <= cs@.len(),
            cs@ == s@,
            ok ==> cs@.len() > 0,
            ok ==> forall|j: int| 0 <= j < i ==> is_digit(#[trigger] cs@[j]),
            ok ==> value as nat == digits_value(cs@.subrange(0, i as int)),
            !ok ==> !(all_digits(s@) && digits_value(s@) <= usize::MAX),
        decreases cs@.len() - i + (if ok { 1int } else { 0int }),
    {
        let c = cs[i];
        let ghost pre = cs@.subrange(0, i as int);
        let ghost next = cs@.subrange(0, i + 1);
        assert(next.drop_last() =~= pre);
        if '0' <= c && c <= '9' {
            let d = (c as u32 - '0' as u32) as usize;
            assert(d as nat == digit_value(c));
            if value > (usize::MAX - d) / 10 {
                proof { lemma_prefix_value_bound(s@, i + 1); }
                ok = false;
            } else {
                value = value * 10 + d;
                i = i + 1;
            }
        } else {
            assert(!all_digits(s@));
            ok = false;
        }
    }
    if ok {
        assert(cs@.subrange(0, cs@.len() as int) =~= cs@);
        PathSegment::Index(value)
    } else {
        PathSegment::Key(string_of(&cs))
    }
}

/// The value of a prefix of a digit string is at most the value of the whole.
proof fn lemma_prefix_value_bound(s: Seq<char>, n: int)
    requires
        0 <= n <= s.len(),
        all_digits(s) ==> true,
    ensures
        all_digits(s) ==> digits_value(s.subrange(0, n)) <= digits_value(s),
    decreases s.len() - n,
{
    if n < s.len() && all_digits(s) {
        lemma_prefix_value_bound(s, n + 1);
        assert(s.subrange(0, n + 1).drop_last() =~= s.subrange(0, n));
        assert(is_digit(s[n]));
    } else if n == s.len() {
        assert(s.subrange(0, n) =~= s);
    }
}

/// Splits a path into its segments.
pub fn parse(path: &str) -> (r: Vec<PathSegment>)
    ensures
        segments_view(r@) == parse_spec(path@),
{
    let cs = chars_of(path);
    if cs.len() == 0 {
        assert(segments_view(Seq::<PathSegment>::empty()) =~= Seq::<SegmentView>::empty());
        return Vec::new();
    }
    let mut segments: Vec<PathSegment> = Vec::new();
    let mut current: Vec<char> = Vec::new();
    let mut i: usize = 0;
    let ghost raw: Seq<Seq<char>> = Seq::empty();
    assert(cs@.skip(0) =~= cs@);
    while i < cs.len()
        invariant
            i <= cs@.len(),
            cs@ == path@,
            raw + split(cs@.skip(i as int), current@) == split(cs@, Seq::empty()),
            segments_view(segments@) == raw.map_values(|t: Seq<char>| classify(t)),
        decreases cs@.len() - i,
    {
        let ch = cs[i];
        let ghost rest = cs@.skip(i as int);
        assert(rest[0] == ch);
        if ch == '\\' && i + 1 < cs.len() && (cs[i + 1] == '\\' || cs[i + 1] == '.') {
            assert(rest[1] == cs@[i + 1]);
            assert(rest.skip(2) =~= cs@.skip(i + 2));
            current.push(cs[i + 1]);
            i = i + 2;
        } else if ch == '.' {
            assert(rest.skip(1) =~= cs@.skip(i + 1));
            let seg = make_segment(string_of(&current).as_str());
            let ghost old_segments = segments@;
            segments.push(seg);
            proof {
                assert(raw + seq![current@] + split(rest.skip(1), Seq::empty()) =~= raw + (seq![current@] + split(rest.skip(1), Seq::empty())));
                assert(segments_view(segments@) =~= segments_view(old_segments).push(seg.view()));
                assert((raw + seq![current@]).map_values(|t: Seq<char>| classify(t)) =~= raw.map_values(|t: Seq<char>| classify(t)).push(classify(current@)));
                raw = raw + seq![current@];
            }
            current = Vec::new();
            i = i + 1;
        } else {
            assert(rest.skip(1) =~= cs@.skip(i + 1));
            current.push(ch);
            i = i + 1;
        }
    }
    assert(cs@.skip(i as int) =~= Seq::<char>::empty());
    let seg = make_segment(string_of(&current).as_str());
    let ghost old_segments = segments@;
    segments.push(seg);
    proof {
        assert(segments_view(segments@) =~= segments_view(old_segments).push(seg.view()));
        assert((raw + seq![current@]).map_values(|t: Seq<char>| classify(t)) =~= raw.map_values(|t: Seq<char>| classify(t)).push(classify(current@)));
    }
    segments
}

/// Characters other than `\` and `.` pass through the splitter unchanged.
proof fn lemma_split_plain(t: Seq<char>, r: Seq<char>, cur: Seq<char>)
    requires
        forall|i: int| 0 <= i < t.len() ==> #[trigger] t[i] != '\\' && t[i] != '.',
    ensures
        split(t + r, cur) == split(r, cur + t),
    decreases t.len(),
{
    if t.len() == 0 {
        assert(t + r =~= r);
        assert(cur + t =~= cur);
    } else {
        let s = t + r;
        assert(s[0] == t[0]);
        assert(s.skip(1) =~= t.skip(1) + r);
        lemma_split_plain(t.skip(1), r, cur.push(t[0]));
        assert(cur.push(t[0]) + t.skip(1) =~= cur + t);
    }
}

/// The splitter reads an escaped key back as the key, whatever follows it.
pub proof fn lemma_split_escape(k: Seq<char>, r: Seq<char>, cur: Seq<char>)
    ensures
        split(escape(k) + r, cur) == split(r, cur + k),
    decreases k.len(),
{
    if k.len() == 0 {
        assert(escape(k) + r =~= r);
        assert(cur + k =~= cur);
    } else {
        let c = k[0];
        let s = escape(k) + r;
        assert(s =~= escape_char(c) + (escape(k.skip(1)) + r));
        lemma_split_escape(k.skip(1), r, cur.push(c));
        assert(cur.push(c) + k.skip(1) =~= cur + k);
        if c == '\\' || c == '.' {
            assert(s[0] == '\\' && s[1] == c);
            assert(s.skip(2) =~= escape(k.skip(1)) + r);
        } else {
            assert(s[0] == c);
            assert(s.skip(1) =~= escape(k.skip(1)) + r);
        }
    }
}

/// The unescaped text of a segment.
pub open spec fn raw_text(s: SegmentView) -> Seq<char> {
    match s {
        SegmentView::Key(k) => k,
        SegmentView::Index(i) => nat_text(i),
    }
}

proof fn lemma_split_segment(x: SegmentView, r: Seq<char>, cur: Seq<char>)
    ensures
        split(segment_text(x) + r, cur) == split(r, cur + raw_text(x)),
{
    match x {
        SegmentView::Key(k) => lemma_split_escape(k, r, cur),
        SegmentView::Index(i) => {
            lemma_nat_text(i);
            let t = nat_text(i);
            assert forall|j: int| 0 <= j < t.len() implies #[trigger] t[j] != '\\' && t[j] != '.' by {
                assert(is_digit(t[j]));
            }
            lemma_split_plain(t, r, cur);
        },
    }
}

proof fn lemma_split_join(s: Seq<SegmentView>)
    requires
        s.len() >= 1,
    ensures
        split(join_spec(s), Seq::empty()) == s.map_values(|x: SegmentView| raw_text(x)),
    decreases s.len(),
{
    let e = Seq::<char>::empty();
    lemma_split_segment(s[0], if s.len() == 1 { e } else { seq!['.'] + join_spec(s.skip(1)) }, e);
    assert(e + raw_text(s[0]) =~= raw_text(s[0]));
    if s.len() == 1 {
        assert(segment_text(s[0]) + e =~= segment_text(s[0]));
        assert(s.map_values(|x: SegmentView| raw_text(x)) =~= seq![raw_text(s[0])]);
    } else {
        let j = join_spec(s.skip(1));
        assert(segment_text(s[0]) + seq!['.'] + j =~= segment_text(s[0]) + (seq!['.'] + j));
        assert((seq!['.'] + j).skip(1) =~= j);
        lemma_split_join(s.skip(1));
        assert(s.map_values(|x: SegmentView| raw_text(x)) =~= seq![raw_text(s[0])] + s.skip(1).map_values(|x: SegmentView| raw_text(x)));
    }
}

/// A segment whose key is non-empty and not all digits is read back as itself.
pub open spec fn round_trips(x: SegmentView) -> bool {
    match x {
        SegmentView::Key(k) => k.len() > 0 && !all_digits(k),
        SegmentView::Index(i) => i <= usize::MAX,
    }
}

proof fn lemma_classify_raw(x: SegmentView)
    requires
        round_trips(x),
    ensures
        classify(raw_text(x)) == x,
{
    if let SegmentView::Index(i) = x {
        lemma_nat_text(i);
    }
}

/// Parsing a joined path gives back the segments, provided that no key is
/// empty or made of decimal digits only (such a key reads back as an index).
pub proof fn lemma_parse_join(segments: Seq<PathSegment>)
    requires
        forall|i: int| 0 <= i < segments.len() ==> (#[trigger] segments[i] matches PathSegment::Key(k) ==> k@.len() > 0 && !all_digits(k@)),
    ensures
        parse_spec(join_spec(segments_view(segments))) == segments_view(segments),
{
    let s = segments_view(segments);
    if s.len() == 0 {
        assert(parse_spec(join_spec(s)) =~= s);
    } else {
        lemma_split_join(s);
        assert forall|i: int| 0 <= i < s.len() implies round_trips(#[trigger] s[i]) by {
            assert(s[i] == segments[i].view());
        }
        let t = segment_text(s[0]);
        match s[0] {
            SegmentView::Key(k) => {
                assert(escape(k).len() > 0) by {
                    assert(escape(k) == escape_char(k[0]) + escape(k.skip(1)));
                }
            },
            SegmentView::Index(n) => { lemma_nat_text(n); },
        }
        assert(join_spec(s).len() > 0) by {
            if s.len() > 1 {
                assert(join_spec(s) == t + seq!['.'] + join_spec(s.skip(1)));
            }
        }
        let raws = s.map_values(|x: SegmentView| raw_text(x));
        let back = raws.map_values(|t: Seq<char>| classify(t));
        assert forall|i: int| 0 <= i < s.len() implies #[trigger] back[i] == s[i] by {
            lemma_classify_raw(s[i]);
        }
        assert(back =~= s);
    }
}

/// Unescaping recovers every key exactly, dots and backslashes included; a
/// non-empty key that is not all digits also parses back as that key.
pub proof fn lemma_escape_recovers_key(key: Seq<char>)
    ensures
        split(escape(key), Seq::empty()) == seq![key],
        key.len() > 0 && !all_digits(key) ==> parse_spec(join_spec(seq![SegmentView::Key(key)])) == seq![SegmentView::Key(key)],
{
    lemma_split_escape(key, Seq::empty(), Seq::empty());
    assert(escape(key) + Seq::<char>::empty() =~= escape(key));
    assert(Seq::<char>::empty() + key =~= key);
    if key.len() > 0 && !all_digits(key) {
        let s = seq![SegmentView::Key(key)];
        assert(escape(key) == escape_char(key[0]) + escape(key.skip(1)));
        assert(join_spec(s) == escape(key));
        assert(parse_spec(join_spec(s)) =~= s);
    }
}

} // verus!
