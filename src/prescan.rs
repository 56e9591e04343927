//! Prescan of the start of a byte stream for a character encoding that the
//! markup declares in a `meta` element.
//!
//! The scan reads one byte at a time through a small state machine, over at
//! most the first `SNIFF_LIMIT` bytes. It is a pure function of the bytes it
//! was given, so a caller that receives the stream in pieces may call it again
//! on the longer prefix each time: see `lemma_prefix_stable`.

use vstd::prelude::*;
use vstd::slice::slice_to_vec;

verus! {

/// The number of bytes at the start of the stream that the prescan reads.
pub const SNIFF_LIMIT: usize = 1024;

/// Why no encoding came out of a prescan.
#[derive(PartialEq, Eq, Structural, Clone, Copy, Debug)]
pub enum AbortReason {
    /// Fewer than `SNIFF_LIMIT` bytes have arrived, more are expected, and
    /// no declaration was found in them: try again with a longer prefix.
    NotEnoughBytes,
    /// The first `SNIFF_LIMIT` bytes, or the whole input, hold no
    /// declaration of a known encoding.
    NoEncodingDetected,
}

/// Where the scan stands within the markup.
#[derive(PartialEq, Eq, Structural, Clone, Copy, Debug)]
pub enum Mode {
    /// Text between tags.
    Content,
    /// Just after `<`.
    Lt,
    /// Just after `<!`.
    LtBang,
    /// Just after `<!-`.
    LtBangDash,
    /// Inside a comment, looking for `-->`.
    Comment,
    /// Reading the name of a start tag.
    TagName,
    /// Inside a tag other than `meta`, looking for its `>`.
    SkipTag,
    /// Inside a quoted value of a tag other than `meta`.
    SkipQuoted,
    /// Inside a `meta` tag, between attributes.
    BeforeAttr,
    /// Reading an attribute name of a `meta` tag.
    AttrName,
    /// After an attribute name, before a possible `=`.
    AfterName,
    /// After `=`, before the value.
    BeforeValue,
    /// Reading a quoted attribute value.
    QuotedValue,
    /// Reading an unquoted attribute value.
    UnquotedValue,
}

/// The state of the prescan between two bytes.
pub struct ScanState {
    pub mode: Mode,
    /// In a comment: how many `-` came last, at most two.
    pub dashes: u8,
    /// The quote that opened the value being read.
    pub quote: u8,
    /// The tag or attribute name read so far, in lower case.
    pub name: Seq<u8>,
    /// The attribute value read so far.
    pub value: Seq<u8>,
    /// This `meta` tag has `http-equiv` set to `content-type`.
    pub pragma: bool,
    /// The value of this `meta` tag's first `content` attribute.
    pub content: Option<Seq<u8>>,
}

/// The outcome of reading one byte.
pub enum Step {
    /// A declared label named this encoding: the scan is over.
    Found(Seq<char>),
    /// The scan goes on in this state.
    Next(ScanState),
}

/// The canonical name of the encoding that a label denotes, if any.
pub uninterp spec fn label_name(label: Seq<u8>) -> Option<Seq<char>>;

pub open spec fn is_space(b: u8) -> bool {
    b == 0x09 || b == 0x0a || b == 0x0c || b == 0x0d || b == 0x20
}

pub open spec fn is_letter(b: u8) -> bool {
    (0x41 <= b && b <= 0x5a) || (0x61 <= b && b <= 0x7a)
}

pub open spec fn is_quote(b: u8) -> bool {
    b == 0x22 || b == 0x27
}

pub open spec fn to_lower(b: u8) -> u8 {
    if 0x41 <= b && b <= 0x5a {
        (b + 0x20) as u8
    } else {
        b
    }
}

pub open spec fn lower_all(s: Seq<u8>) -> Seq<u8> {
    s.map_values(|b: u8| to_lower(b))
}

pub open spec fn meta_word() -> Seq<u8> {
    seq![0x6du8, 0x65u8, 0x74u8, 0x61u8]
}

pub open spec fn charset_word() -> Seq<u8> {
    seq![0x63u8, 0x68u8, 0x61u8, 0x72u8, 0x73u8, 0x65u8, 0x74u8]
}

pub open spec fn content_word() -> Seq<u8> {
    seq![0x63u8, 0x6fu8, 0x6eu8, 0x74u8, 0x65u8, 0x6eu8, 0x74u8]
}

pub open spec fn http_equiv_word() -> Seq<u8> {
    seq![0x68u8, 0x74u8, 0x74u8, 0x70u8, 0x2du8, 0x65u8, 0x71u8, 0x75u8, 0x69u8, 0x76u8]
}

pub open spec fn content_type_word() -> Seq<u8> {
    seq![0x63u8, 0x6fu8, 0x6eu8, 0x74u8, 0x65u8, 0x6eu8, 0x74u8, 0x2du8, 0x74u8, 0x79u8, 0x70u8, 0x65u8]
}

/// A declaration may not select UTF-16: such a label selects UTF-8.
pub open spec fn override_utf16(name: Seq<char>) -> Seq<char> {
    if name == "UTF-16LE"@ || name == "UTF-16BE"@ {
        "UTF-8"@
    } else {
        name
    }
}

/// The encoding that a declared label selects, if the label is known.
pub open spec fn resolve(label: Seq<u8>) -> Option<Seq<char>> {
    match label_name(label) {
        Some(n) => Some(override_utf16(n)),
        None => None,
    }
}

/// The first position at or after `i` that is not whitespace.
pub open spec fn skip_space(c: Seq<u8>, i: int) -> int
    decreases c.len() - i,
{
    if 0 <= i < c.len() && is_space(c[i]) {
        skip_space(c, i + 1)
    } else {
        i
    }
}

/// The first position at or after `i` that holds `q`.
pub open spec fn find_byte(c: Seq<u8>, i: int, q: u8) -> Option<int>
    decreases c.len() - i,
{
    if i < 0 || i >= c.len() {
        None
    } else if c[i] == q {
        Some(i)
    } else {
        find_byte(c, i + 1, q)
    }
}

/// The end of an unquoted value that starts at `i` in a `content` value.
pub open spec fn value_end(c: Seq<u8>, i: int) -> int
    decreases c.len() - i,
{
    if 0 <= i < c.len() && !is_space(c[i]) && c[i] != 0x3bu8 {
        value_end(c, i + 1)
    } else {
        i
    }
}

/// The label given by `charset=` in the `content` value `c`, searching from
/// position `i`.
pub open spec fn extract_from(c: Seq<u8>, i: int) -> Option<Seq<u8>>
    decreases c.len() - i,
{
    if i < 0 || i + 7 > c.len() {
        None
    } else if lower_all(c.subrange(i, i + 7)) == charset_word() {
        let j = skip_space(c, i + 7);
        if j < c.len() && c[j] == 0x3du8 {
            let k = skip_space(c, j + 1);
            if k >= c.len() {
                None
            } else if is_quote(c[k]) {
                match find_byte(c, k + 1, c[k]) {
                    Some(m) => Some(c.subrange(k + 1, m)),
                    None => None,
                }
            } else {
                Some(c.subrange(k, value_end(c, k)))
            }
        } else {
            extract_from(c, i + 7)
        }
    } else {
        extract_from(c, i + 1)
    }
}

/// The label that a `content` value declares, if any.
pub open spec fn extract_charset(c: Seq<u8>) -> Option<Seq<u8>> {
    extract_from(c, 0)
}

/// A state whose mode is `mode`, with nothing accumulated for a name or value.
pub open spec fn in_mode(st: ScanState, mode: Mode) -> ScanState {
    ScanState { mode, name: Seq::empty(), value: Seq::empty(), ..st }
}

/// A byte read between tags.
pub open spec fn content_byte(st: ScanState, b: u8) -> ScanState {
    if b == 0x3cu8 {
        in_mode(st, Mode::Lt)
    } else {
        in_mode(st, Mode::Content)
    }
}

/// A byte read inside a tag that is being skipped.
pub open spec fn skip_byte(st: ScanState, b: u8) -> ScanState {
    if b == 0x3eu8 {
        in_mode(st, Mode::Content)
    } else if is_quote(b) {
        ScanState { quote: b, ..in_mode(st, Mode::SkipQuoted) }
    } else {
        in_mode(st, Mode::SkipTag)
    }
}

/// An attribute `name` with `value` of the current `meta` tag is complete;
/// the scan then goes on in `next`.
pub open spec fn finish_attr(st: ScanState, name: Seq<u8>, value: Seq<u8>, next: ScanState) -> Step {
    let pragma = st.pragma || (name == http_equiv_word() && lower_all(value)
        == content_type_word());
    let content = if name == content_word() && st.content.is_none() {
        Some(value)
    } else {
        st.content
    };
    let completes_pair = !(st.pragma && st.content.is_some()) && pragma && content.is_some();
    if name == charset_word() && resolve(value).is_some() {
        Step::Found(resolve(value).unwrap())
    } else if completes_pair && extract_charset(content.unwrap()).is_some() && resolve(
        extract_charset(content.unwrap()).unwrap(),
    ).is_some() {
        Step::Found(resolve(extract_charset(content.unwrap()).unwrap()).unwrap())
    } else {
        Step::Next(ScanState { pragma, content, ..next })
    }
}

/// Reading the byte `b` in state `st`.
pub open spec fn step(st: ScanState, b: u8) -> Step {
    match st.mode {
        Mode::Content => Step::Next(content_byte(st, b)),
        Mode::Lt => if is_letter(b) {
            Step::Next(ScanState { name: seq![to_lower(b)], ..in_mode(st, Mode::TagName) })
        } else if b == 0x21u8 {
            Step::Next(in_mode(st, Mode::LtBang))
        } else {
            Step::Next(content_byte(st, b))
        },
        Mode::LtBang => if b == 0x2du8 {
            Step::Next(in_mode(st, Mode::LtBangDash))
        } else {
            Step::Next(content_byte(st, b))
        },
        Mode::LtBangDash => if b == 0x2du8 {
            Step::Next(ScanState { dashes: 0, ..in_mode(st, Mode::Comment) })
        } else {
            Step::Next(content_byte(st, b))
        },
        Mode::Comment => if b == 0x2du8 {
            Step::Next(ScanState { dashes: if st.dashes < 2 { (st.dashes + 1) as u8 } else { 2 }, ..st })
        } else if b == 0x3eu8 && st.dashes == 2 {
            Step::Next(in_mode(st, Mode::Content))
        } else {
            Step::Next(ScanState { dashes: 0, ..st })
        },
        Mode::TagName => if is_letter(b) {
            Step::Next(ScanState { name: st.name.push(to_lower(b)), ..st })
        } else if st.name == meta_word() && b == 0x3eu8 {
            Step::Next(in_mode(st, Mode::Content))
        } else if st.name == meta_word() && is_space(b) {
            Step::Next(ScanState { pragma: false, content: None, ..in_mode(st, Mode::BeforeAttr) })
        } else {
            Step::Next(skip_byte(st, b))
        },
        Mode::SkipTag => Step::Next(skip_byte(st, b)),
        Mode::SkipQuoted => if b == st.quote {
            Step::Next(in_mode(st, Mode::SkipTag))
        } else {
            Step::Next(st)
        },
        Mode::BeforeAttr => if is_space(b) || b == 0x3du8 {
            Step::Next(st)
        } else if b == 0x3eu8 {
            Step::Next(in_mode(st, Mode::Content))
        } else {
            Step::Next(ScanState { name: seq![to_lower(b)], ..in_mode(st, Mode::AttrName) })
        },
        Mode::AttrName => if is_space(b) {
            Step::Next(ScanState { mode: Mode::AfterName, ..st })
        } else if b == 0x3du8 {
            Step::Next(ScanState { mode: Mode::BeforeValue, ..st })
        } else if b == 0x3eu8 {
            finish_attr(st, st.name, Seq::empty(), in_mode(st, Mode::Content))
        } else {
            Step::Next(ScanState { name: st.name.push(to_lower(b)), ..st })
        },
        Mode::AfterName => if is_space(b) {
            Step::Next(st)
        } else if b == 0x3du8 {
            Step::Next(ScanState { mode: Mode::BeforeValue, ..st })
        } else if b == 0x3eu8 {
            finish_attr(st, st.name, Seq::empty(), in_mode(st, Mode::Content))
        } else {
            finish_attr(
                st,
                st.name,
                Seq::empty(),
                ScanState { name: seq![to_lower(b)], ..in_mode(st, Mode::AttrName) },
            )
        },
        Mode::BeforeValue => if is_space(b) {
            Step::Next(st)
        } else if is_quote(b) {
            Step::Next(ScanState { mode: Mode::QuotedValue, quote: b, value: Seq::empty(), ..st })
        } else if b == 0x3eu8 {
            finish_attr(st, st.name, Seq::empty(), in_mode(st, Mode::Content))
        } else {
            Step::Next(ScanState { mode: Mode::UnquotedValue, value: seq![b], ..st })
        },
        Mode::QuotedValue => if b == st.quote {
            finish_attr(st, st.name, st.value, in_mode(st, Mode::BeforeAttr))
        } else {
            Step::Next(ScanState { value: st.value.push(b), ..st })
        },
        Mode::UnquotedValue => if is_space(b) {
            finish_attr(st, st.name, st.value, in_mode(st, Mode::BeforeAttr))
        } else if b == 0x3eu8 {
            finish_attr(st, st.name, st.value, in_mode(st, Mode::Content))
        } else {
            Step::Next(ScanState { value: st.value.push(b), ..st })
        },
    }
}

/// The state at the start of the stream.
pub open spec fn initial_state() -> ScanState {
    ScanState {
        mode: Mode::Content,
        dashes: 0,
        quote: 0,
        name: Seq::empty(),
        value: Seq::empty(),
        pragma: false,
        content: None,
    }
}

/// Reading the bytes of `w` from position `i` on, in state `st`: the encoding
/// found, if any.
pub open spec fn run(w: Seq<u8>, i: int, st: ScanState) -> Option<Seq<char>>
    decreases w.len() - i,
{
    if i < 0 || i >= w.len() {
        None
    } else {
        match step(st, w[i]) {
            Step::Found(n) => Some(n),
            Step::Next(next) => run(w, i + 1, next),
        }
    }
}

/// The bytes that the prescan reads.
pub open spec fn window(s: Seq<u8>) -> Seq<u8> {
    if s.len() <= SNIFF_LIMIT {
        s
    } else {
        s.take(SNIFF_LIMIT as int)
    }
}

/// The outcome of a prescan of `s`; `complete` tells that no more bytes
/// will follow.
pub open spec fn sniff(s: Seq<u8>, complete: bool) -> Result<Seq<char>, AbortReason> {
    match run(window(s), 0, initial_state()) {
        Some(n) => Ok(n),
        None => if complete || s.len() >= SNIFF_LIMIT {
            Err(AbortReason::NoEncodingDetected)
        } else {
            Err(AbortReason::NotEnoughBytes)
        },
    }
}


/// Relies on encoding_rs::Encoding::for_label, which trims ASCII whitespace
/// and matches the label ASCII-case-insensitively against the labels of the
/// Encoding Standard; `Encoding::name` turns the encoding found into its
/// canonical name.
#[verifier::external_body]
fn encoding_for_label(label: &[u8]) -> (r: Option<&'static str>)
    ensures
        match r {
            Some(n) => label_name(label@) == Some(n@),
            None => label_name(label@).is_none(),
        },
{
    encoding_rs::Encoding::for_label(label).map(encoding_rs::Encoding::name)
}

fn is_utf16_name(n: &str) -> (r: bool)
    ensures
        r == (n@ == "UTF-16LE"@ || n@ == "UTF-16BE"@),
{
    let owned = n.to_owned();
    owned == "UTF-16LE".to_owned() || owned == "UTF-16BE".to_owned()
}

/// The encoding that a declaration selects, given the canonical name of the
/// encoding that its label denotes: UTF-8 in place of UTF-16.
pub fn declared_encoding(name: &'static str) -> (r: &'static str)
    ensures
        r@ == override_utf16(name@),
{
    if is_utf16_name(name) {
        "UTF-8"
    } else {
        name
    }
}

/// The encoding that a declared label selects, by canonical name.
fn resolve_label(label: &[u8]) -> (r: Option<&'static str>)
    ensures
        match resolve(label@) {
            Some(n) => r.is_some() && r.unwrap()@ == n,
            None => r.is_none(),
        },
{
    match encoding_for_label(label) {
        None => None,
        Some(n) => Some(declared_encoding(n)),
    }
}

fn space(b: u8) -> (r: bool)
    ensures
        r == is_space(b),
{
    b == 0x09 || b == 0x0a || b == 0x0c || b == 0x0d || b == 0x20
}

fn letter(b: u8) -> (r: bool)
    ensures
        r == is_letter(b),
{
    (0x41 <= b && b <= 0x5a) || (0x61 <= b && b <= 0x7a)
}

fn quote(b: u8) -> (r: bool)
    ensures
        r == is_quote(b),
{
    b == 0x22 || b == 0x27
}

fn lower(b: u8) -> (r: u8)
    ensures
        r == to_lower(b),
{
    if 0x41 <= b && b <= 0x5a {
        b + 0x20
    } else {
        b
    }
}

/// Whether `c`, from position `i` on, holds `w` up to ASCII case; `w` is in
/// lower case.
fn lower_matches(c: &[u8], i: usize, w: &[u8]) -> (r: bool)
    requires
        i + w@.len() <= c@.len(),
    ensures
        r == (lower_all(c@.subrange(i as int, i + w@.len())) == w@),
{
    let ghost part = lower_all(c@.subrange(i as int, i + w@.len()));
    proof {
        assert forall|j: int| 0 <= j < part.len() implies part[j] == to_lower(c@[i + j]) by {}
    }
    let mut k: usize = 0;
    while k < w.len()
        invariant
            i + w@.len() <= c@.len(),
            c@.len() == c.len(),
            k <= w@.len(),
            part.len() == w@.len(),
            forall|j: int| 0 <= j < part.len() ==> part[j] == to_lower(c@[i + j]),
            forall|j: int| 0 <= j < k ==> part[j] == w@[j],
        decreases w@.len() - k,
    {
        if lower(c[i + k]) != w[k] {
            return false;
        }
        k = k + 1;
    }
    proof {
        assert(part =~= w@);
    }
    true
}

/// Whether `a` and `w` hold the same bytes.
fn same_bytes(a: &[u8], w: &[u8]) -> (r: bool)
    ensures
        r == (a@ == w@),
{
    if a.len() != w.len() {
        return false;
    }
    let mut k: usize = 0;
    while k < w.len()
        invariant
            a@.len() == w@.len(),
            k <= w@.len(),
            forall|j: int| 0 <= j < k ==> a@[j] == w@[j],
        decreases w@.len() - k,
    {
        if a[k] != w[k] {
            return false;
        }
        k = k + 1;
    }
    proof {
        assert(a@ =~= w@);
    }
    true
}

fn meta_bytes() -> (r: Vec<u8>)
    ensures
        r@ == meta_word(),
{
    let r = vec![0x6du8, 0x65u8, 0x74u8, 0x61u8];
    proof {
        assert(r@ =~= meta_word());
    }
    r
}

fn charset_bytes() -> (r: Vec<u8>)
    ensures
        r@ == charset_word(),
{
    let r = vec![0x63u8, 0x68u8, 0x61u8, 0x72u8, 0x73u8, 0x65u8, 0x74u8];
    proof {
        assert(r@ =~= charset_word());
    }
    r
}

fn content_bytes() -> (r: Vec<u8>)
    ensures
        r@ == content_word(),
{
    let r = vec![0x63u8, 0x6fu8, 0x6eu8, 0x74u8, 0x65u8, 0x6eu8, 0x74u8];
    proof {
        assert(r@ =~= content_word());
    }
    r
}

fn http_equiv_bytes() -> (r: Vec<u8>)
    ensures
        r@ == http_equiv_word(),
{
    let r = vec![0x68u8, 0x74u8, 0x74u8, 0x70u8, 0x2du8, 0x65u8, 0x71u8, 0x75u8, 0x69u8, 0x76u8];
    proof {
        assert(r@ =~= http_equiv_word());
    }
    r
}

fn content_type_bytes() -> (r: Vec<u8>)
    ensures
        r@ == content_type_word(),
{
    let r = vec![
        0x63u8,
        0x6fu8,
        0x6eu8,
        0x74u8,
        0x65u8,
        0x6eu8,
        0x74u8,
        0x2du8,
        0x74u8,
        0x79u8,
        0x70u8,
        0x65u8,
    ];
    proof {
        assert(r@ =~= content_type_word());
    }
    r
}

fn skip_space_at(c: &[u8], i: usize) -> (j: usize)
    requires
        i <= c@.len(),
    ensures
        j == skip_space(c@, i as int),
        i <= j <= c@.len(),
{
    let mut j: usize = i;
    while j < c.len() && space(c[j])
        invariant
            i <= j <= c@.len(),
            skip_space(c@, i as int) == skip_space(c@, j as int),
        decreases c@.len() - j,
    {
        j = j + 1;
    }
    j
}

fn find_byte_at(c: &[u8], i: usize, q: u8) -> (r: Option<usize>)
    requires
        i <= c@.len(),
    ensures
        match r {
            Some(m) => find_byte(c@, i as int, q) == Some(m as int) && i <= m < c@.len(),
            None => find_byte(c@, i as int, q).is_none(),
        },
{
    let mut j: usize = i;
    while j < c.len()
        invariant
            i <= j <= c@.len(),
            find_byte(c@, i as int, q) == find_byte(c@, j as int, q),
        decreases c@.len() - j,
    {
        if c[j] == q {
            return Some(j);
        }
        j = j + 1;
    }
    None
}

fn value_end_at(c: &[u8], i: usize) -> (j: usize)
    requires
        i <= c@.len(),
    ensures
        j == value_end(c@, i as int),
        i <= j <= c@.len(),
{
    let mut j: usize = i;
    while j < c.len() && !space(c[j]) && c[j] != 0x3bu8
        invariant
            i <= j <= c@.len(),
            value_end(c@, i as int) == value_end(c@, j as int),
        decreases c@.len() - j,
    {
        j = j + 1;
    }
    j
}

/// The label that the `content` value `c` declares with `charset=`, if any.
pub fn extract_label(c: &[u8]) -> (r: Option<Vec<u8>>)
    ensures
        match r {
            Some(l) => extract_charset(c@) == Some(l@),
            None => extract_charset(c@).is_none(),
        },
{
    let word = charset_bytes();
    let mut i: usize = 0;
    loop
        invariant
            i <= c@.len(),
            word@ == charset_word(),
            extract_charset(c@) == extract_from(c@, i as int),
        decreases c@.len() - i,
    {
        if c.len() - i < 7 {
            return None;
        }
        if lower_matches(c, i, word.as_slice()) {
            let j = skip_space_at(c, i + 7);
            if j < c.len() && c[j] == 0x3du8 {
                let k = skip_space_at(c, j + 1);
                if k >= c.len() {
                    return None;
                }
                if quote(c[k]) {
                    match find_byte_at(c, k + 1, c[k]) {
                        Some(m) => {
                            let part = vstd::slice::slice_subrange(c, k + 1, m);
                            return Some(slice_to_vec(part));
                        },
                        None => {
                            return None;
                        },
                    }
                }
                let e = value_end_at(c, k);
                let part = vstd::slice::slice_subrange(c, k, e);
                return Some(slice_to_vec(part));
            }
            i = i + 7;
        } else {
            i = i + 1;
        }
    }
}

/// The prescan's state machine, as it runs.
struct Scanner {
    mode: Mode,
    dashes: u8,
    quote: u8,
    name: Vec<u8>,
    value: Vec<u8>,
    pragma: bool,
    content: Option<Vec<u8>>,
}

impl View for Scanner {
    type V = ScanState;

    closed spec fn view(&self) -> ScanState {
        ScanState {
            mode: self.mode,
            dashes: self.dashes,
            quote: self.quote,
            name: self.name@,
            value: self.value@,
            pragma: self.pragma,
            content: match self.content {
                Some(v) => Some(v@),
                None => None,
            },
        }
    }
}

impl Scanner {
    fn new() -> (r: Scanner)
        ensures
            r@ == initial_state(),
    {
        Scanner {
            mode: Mode::Content,
            dashes: 0,
            quote: 0,
            name: Vec::new(),
            value: Vec::new(),
            pragma: false,
            content: None,
        }
    }

    /// Move to `mode`, dropping the name and value read so far.
    fn enter(&mut self, mode: Mode)
        ensures
            final(self)@ == in_mode(old(self)@, mode),
    {
        self.mode = mode;
        self.name.clear();
        self.value.clear();
        proof {
            assert(self.name@ =~= Seq::<u8>::empty());
            assert(self.value@ =~= Seq::<u8>::empty());
        }
    }

    fn content_byte(&mut self, b: u8)
        ensures
            final(self)@ == content_byte(old(self)@, b),
    {
        if b == 0x3cu8 {
            self.enter(Mode::Lt);
        } else {
            self.enter(Mode::Content);
        }
    }

    fn skip_byte(&mut self, b: u8)
        ensures
            final(self)@ == skip_byte(old(self)@, b),
    {
        if b == 0x3eu8 {
            self.enter(Mode::Content);
        } else if quote(b) {
            self.enter(Mode::SkipQuoted);
            self.quote = b;
        } else {
            self.enter(Mode::SkipTag);
        }
    }

    /// The attribute held in `name` and `value` is complete: take note of it
    /// for this tag, and resolve the label that it declares, if any.
    fn finish_attr(&mut self) -> (r: Option<&'static str>)
        ensures
            match finish_attr(old(self)@, old(self)@.name, old(self)@.value, old(self)@) {
                Step::Found(n) => r.is_some() && r.unwrap()@ == n,
                Step::Next(st) => r.is_none() && final(self)@ == st,
            },
    {
        let is_charset = same_bytes(self.name.as_slice(), charset_bytes().as_slice());
        if is_charset {
            match resolve_label(self.value.as_slice()) {
                Some(n) => {
                    return Some(n);
                },
                None => {},
            }
        }
        let had_pair = self.pragma && self.content.is_some();
        if same_bytes(self.name.as_slice(), http_equiv_bytes().as_slice()) {
            let word = content_type_bytes();
            if self.value.len() == word.len() && lower_matches(
                self.value.as_slice(),
                0,
                word.as_slice(),
            ) {
                proof {
                    assert(self.value@.subrange(0, self.value@.len() as int) =~= self.value@);
                }
                self.pragma = true;
            } else {
                proof {
                    assert(self.value@.subrange(0, self.value@.len() as int) =~= self.value@);
                }
            }
        }
        if self.content.is_none() && same_bytes(self.name.as_slice(), content_bytes().as_slice()) {
            self.content = Some(slice_to_vec(self.value.as_slice()));
        }
        if !had_pair && self.pragma {
            match &self.content {
                Some(c) => {
                    match extract_label(c.as_slice()) {
                        Some(label) => {
                            match resolve_label(label.as_slice()) {
                                Some(n) => {
                                    return Some(n);
                                },
                                None => {},
                            }
                        },
                        None => {},
                    }
                },
                None => {},
            }
        }
        None
    }

    /// Read the byte `b`: the encoding found, if it completes a declaration
    /// of a known one.
    #[verifier::rlimit(50)]
    fn step(&mut self, b: u8) -> (r: Option<&'static str>)
        ensures
            match step(old(self)@, b) {
                Step::Found(n) => r.is_some() && r.unwrap()@ == n,
                Step::Next(st) => r.is_none() && final(self)@ == st,
            },
    {
        match self.mode {
            Mode::Content => {
                self.content_byte(b);
            },
            Mode::Lt => {
                if letter(b) {
                    self.enter(Mode::TagName);
                    self.name.push(lower(b));
                    proof {
                        assert(self.name@ =~= seq![to_lower(b)]);
                    }
                } else if b == 0x21u8 {
                    self.enter(Mode::LtBang);
                } else {
                    self.content_byte(b);
                }
            },
            Mode::LtBang => {
                if b == 0x2du8 {
                    self.enter(Mode::LtBangDash);
                } else {
                    self.content_byte(b);
                }
            },
            Mode::LtBangDash => {
                if b == 0x2du8 {
                    self.enter(Mode::Comment);
                    self.dashes = 0;
                } else {
                    self.content_byte(b);
                }
            },
            Mode::Comment => {
                if b == 0x2du8 {
                    if self.dashes < 2 {
                        self.dashes = self.dashes + 1;
                    } else {
                        self.dashes = 2;
                    }
                } else if b == 0x3eu8 && self.dashes == 2 {
                    self.enter(Mode::Content);
                } else {
                    self.dashes = 0;
                }
            },
            Mode::TagName => {
                if letter(b) {
                    self.name.push(lower(b));
                } else {
                    let is_meta = same_bytes(self.name.as_slice(), meta_bytes().as_slice());
                    if is_meta && b == 0x3eu8 {
                        self.enter(Mode::Content);
                    } else if is_meta && space(b) {
                        self.enter(Mode::BeforeAttr);
                        self.pragma = false;
                        self.content = None;
                    } else {
                        self.skip_byte(b);
                    }
                }
            },
            Mode::SkipTag => {
                self.skip_byte(b);
            },
            Mode::SkipQuoted => {
                if b == self.quote {
                    self.enter(Mode::SkipTag);
                }
            },
            Mode::BeforeAttr => {
                if space(b) || b == 0x3du8 {
                } else if b == 0x3eu8 {
                    self.enter(Mode::Content);
                } else {
                    self.enter(Mode::AttrName);
                    self.name.push(lower(b));
                    proof {
                        assert(self.name@ =~= seq![to_lower(b)]);
                    }
                }
            },
            Mode::AttrName => {
                if space(b) {
                    self.mode = Mode::AfterName;
                } else if b == 0x3du8 {
                    self.mode = Mode::BeforeValue;
                } else if b == 0x3eu8 {
                    return self.finish_then(Mode::Content, false);
                } else {
                    self.name.push(lower(b));
                }
            },
            Mode::AfterName => {
                if space(b) {
                } else if b == 0x3du8 {
                    self.mode = Mode::BeforeValue;
                } else if b == 0x3eu8 {
                    return self.finish_then(Mode::Content, false);
                } else {
                    let r = self.finish_then(Mode::AttrName, false);
                    if r.is_none() {
                        self.name.push(lower(b));
                        proof {
                            assert(self.name@ =~= seq![to_lower(b)]);
                        }
                    }
                    return r;
                }
            },
            Mode::BeforeValue => {
                if space(b) {
                } else if quote(b) {
                    self.mode = Mode::QuotedValue;
                    self.quote = b;
                    self.value.clear();
                    proof {
                        assert(self.value@ =~= Seq::<u8>::empty());
                    }
                } else if b == 0x3eu8 {
                    return self.finish_then(Mode::Content, false);
                } else {
                    self.mode = Mode::UnquotedValue;
                    self.value.clear();
                    self.value.push(b);
                    proof {
                        assert(self.value@ =~= seq![b]);
                    }
                }
            },
            Mode::QuotedValue => {
                if b == self.quote {
                    return self.finish_then(Mode::BeforeAttr, true);
                } else {
                    self.value.push(b);
                }
            },
            Mode::UnquotedValue => {
                if space(b) {
                    return self.finish_then(Mode::BeforeAttr, true);
                } else if b == 0x3eu8 {
                    return self.finish_then(Mode::Content, true);
                } else {
                    self.value.push(b);
                }
            },
        }
        None
    }

    /// Complete the attribute being read, with its value or with none, and
    /// go on in `mode`.
    fn finish_then(&mut self, mode: Mode, with_value: bool) -> (r: Option<&'static str>)
        ensures
            match finish_attr(
                old(self)@,
                old(self)@.name,
                if with_value {
                    old(self)@.value
                } else {
                    Seq::empty()
                },
                in_mode(old(self)@, mode),
            ) {
                Step::Found(n) => r.is_some() && r.unwrap()@ == n,
                Step::Next(st) => r.is_none() && final(self)@ == st,
            },
    {
        if !with_value {
            self.value.clear();
            proof {
                assert(self.value@ =~= Seq::<u8>::empty());
            }
        }
        let r = self.finish_attr();
        if r.is_none() {
            self.enter(mode);
        }
        r
    }
}

/// Prescan the bytes that have arrived of a stream for a declared character
/// encoding, and return its canonical name. `complete` tells that `stream`
/// is the whole input.
#[allow(non_snake_case)]
pub fn readByte(stream: &[u8], complete: bool) -> (r: Result<&'static str, AbortReason>)
    ensures
        match sniff(stream@, complete) {
            Ok(n) => r.is_ok() && r.unwrap()@ == n,
            Err(e) => r == Err::<&'static str, AbortReason>(e),
        },
{
    let limit: usize = if stream.len() < SNIFF_LIMIT {
        stream.len()
    } else {
        SNIFF_LIMIT
    };
    let ghost w = window(stream@);
    proof {
        assert(w =~= stream@.take(limit as int));
    }
    let mut sc = Scanner::new();
    let mut i: usize = 0;
    while i < limit
        invariant
            limit <= stream@.len(),
            w == stream@.take(limit as int),
            w == window(stream@),
            w.len() == limit,
            i <= limit,
            run(w, 0, initial_state()) == run(w, i as int, sc@),
        decreases limit - i,
    {
        let b = stream[i];
        assert(w[i as int] == b);
        match sc.step(b) {
            Some(n) => {
                return Ok(n);
            },
            None => {},
        }
        i = i + 1;
    }
    if complete || stream.len() >= SNIFF_LIMIT {
        Err(AbortReason::NoEncodingDetected)
    } else {
        Err(AbortReason::NotEnoughBytes)
    }
}

/// Reading on past the end of `w` into more bytes does not change an
/// encoding already found within `w`.
proof fn lemma_run_extends(w: Seq<u8>, w2: Seq<u8>, i: int, st: ScanState)
    requires
        run(w, i, st).is_some(),
        w.len() <= w2.len(),
        forall|j: int| 0 <= j < w.len() ==> w2[j] == w[j],
    ensures
        run(w2, i, st) == run(w, i, st),
    decreases w.len() - i,
{
    match step(st, w[i]) {
        Step::Found(_) => {},
        Step::Next(next) => {
            lemma_run_extends(w, w2, i + 1, next);
        },
    }
}

/// Once the prescan of the bytes that have arrived so far has an outcome
/// other than `NotEnoughBytes`, bytes that arrive later do not change it,
/// whether or not the input is then complete. Feeding a stream in pieces
/// and scanning the longer prefix each time therefore ends in the outcome of
/// a scan of the whole stream, however it was split.
pub proof fn lemma_prefix_stable(s: Seq<u8>, t: Seq<u8>, complete: bool)
    requires
        sniff(s, false) != Err::<Seq<char>, AbortReason>(AbortReason::NotEnoughBytes),
    ensures
        sniff(s + t, complete) == sniff(s, false),
{
    let w = window(s);
    let w2 = window(s + t);
    if s.len() >= SNIFF_LIMIT {
        assert(w =~= w2);
    } else {
        assert(run(w, 0, initial_state()).is_some());
        assert forall|j: int| 0 <= j < w.len() implies w2[j] == w[j] by {}
        lemma_run_extends(w, w2, 0, initial_state());
    }
}

/// The prescan never reads past its first `SNIFF_LIMIT` bytes: a
/// declaration that starts later is never found.
pub proof fn lemma_budget(s: Seq<u8>, t: Seq<u8>, complete1: bool, complete2: bool)
    requires
        s.len() >= SNIFF_LIMIT,
    ensures
        sniff(s + t, complete1) == sniff(s, complete2),
{
    assert(window(s) =~= window(s + t));
}

proof fn lemma_override_not_utf16(name: Seq<char>)
    ensures
        override_utf16(name) != "UTF-16LE"@,
        override_utf16(name) != "UTF-16BE"@,
{
    reveal_strlit("UTF-8");
    reveal_strlit("UTF-16LE");
    reveal_strlit("UTF-16BE");
    assert("UTF-8"@.len() != "UTF-16LE"@.len());
    assert("UTF-8"@.len() != "UTF-16BE"@.len());
}

proof fn lemma_run_not_utf16(w: Seq<u8>, i: int, st: ScanState)
    ensures
        run(w, i, st) != Some("UTF-16LE"@),
        run(w, i, st) != Some("UTF-16BE"@),
    decreases w.len() - i,
{
    if 0 <= i < w.len() {
        match step(st, w[i]) {
            Step::Found(n) => {
                let v = if st.mode == Mode::AttrName || st.mode == Mode::AfterName
                    || st.mode == Mode::BeforeValue {
                    Seq::<u8>::empty()
                } else {
                    st.value
                };
                let pragma = st.pragma || (st.name == http_equiv_word() && lower_all(v)
                    == content_type_word());
                let content = if st.name == content_word() && st.content.is_none() {
                    Some(v)
                } else {
                    st.content
                };
                lemma_override_not_utf16(label_name(v).unwrap_or(Seq::empty()));
                if content.is_some() && extract_charset(content.unwrap()).is_some() {
                    lemma_override_not_utf16(
                        label_name(extract_charset(content.unwrap()).unwrap()).unwrap_or(
                            Seq::empty(),
                        ),
                    );
                }
            },
            Step::Next(next) => {
                lemma_run_not_utf16(w, i + 1, next);
            },
        }
    }
}

/// A declaration never selects UTF-16: a UTF-16 label selects UTF-8.
pub proof fn lemma_never_utf16(s: Seq<u8>, complete: bool)
    ensures
        sniff(s, complete) != Ok::<Seq<char>, AbortReason>("UTF-16LE"@),
        sniff(s, complete) != Ok::<Seq<char>, AbortReason>("UTF-16BE"@),
{
    lemma_run_not_utf16(window(s), 0, initial_state());
}

} // verus!
