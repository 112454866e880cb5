//! The wire codec: encoding and decoding of the tagged envelope format.
//!
//! An envelope travels as a fixed-shape object in UTF-8 bytes:
//!
//! ```text
//! {"messageType":TAG,"dataArray":ARR,"data":DATA}
//! ```
//!
//! where `TAG` is one of the strings `"users"`, `"register"`, `"message"`,
//! `ARR` is `null` or an array of strings, and `DATA` is `null` or a string.
//! Inside a string, `"` and `\` are escaped with a leading `\`; every other
//! byte stands for itself. The tag must match the payload shape: `users`
//! carries `dataArray` only, `register` and `message` carry `data` only.
//!
//! Encoding is total; decoding accepts exactly the encodings of well-formed
//! envelopes and reports `Malformed` (the text is not in the wire grammar)
//! or `SchemaMismatch` (the shape contradicts the tag, or the tag is
//! unrecognized) otherwise. Decoding never mutates anything.

use vstd::prelude::*;

verus! {

/// `"` on the wire.
pub const QUOTE: u8 = 34;

/// `\` on the wire.
pub const BACKSLASH: u8 = 92;

/// `,` on the wire.
pub const COMMA: u8 = 44;

/// `[` on the wire.
pub const LBRACKET: u8 = 91;

/// `]` on the wire.
pub const RBRACKET: u8 = 93;

/// `}` on the wire.
pub const RBRACE: u8 = 125;

/// The tag of a wire envelope: which payload shape it carries.
#[derive(Clone, Copy, Debug, PartialEq, Eq, Structural)]
pub enum MsgTypes {
    Users,
    Register,
    Message,
}

/// Why a frame was rejected: not in the wire grammar at all, or in the
/// grammar but with a payload shape that contradicts its tag (including an
/// unrecognized tag).
#[derive(Clone, Copy, Debug, PartialEq, Eq, Structural)]
pub enum DecodeError {
    Malformed,
    SchemaMismatch,
}

/// A wire envelope. `data_array` carries the roster for `Users`; `data`
/// carries the payload text for `Register` and `Message` (for `Message` it
/// is itself an encoded [`MessageData`]).
#[derive(Debug)]
pub struct WebSocketMessage {
    pub message_type: MsgTypes,
    pub data_array: Option<Vec<Vec<u8>>>,
    pub data: Option<Vec<u8>>,
}

/// The mathematical value of a [`WebSocketMessage`].
#[verifier::ext_equal]
pub struct EnvView {
    pub kind: MsgTypes,
    pub arr: Option<Seq<Seq<u8>>>,
    pub text: Option<Seq<u8>>,
}

impl View for WebSocketMessage {
    type V = EnvView;

    open spec fn view(&self) -> EnvView {
        EnvView { kind: self.message_type, arr: self.data_array.deep_view(), text: self.data.deep_view() }
    }
}

/// The nested payload of a `Message` envelope: who sent it and the body.
#[derive(Debug)]
pub struct MessageData {
    pub from: Vec<u8>,
    pub message: Vec<u8>,
}

/// The mathematical value of a [`MessageData`].
#[verifier::ext_equal]
pub struct MessageDataView {
    pub from: Seq<u8>,
    pub message: Seq<u8>,
}

impl View for MessageData {
    type V = MessageDataView;

    open spec fn view(&self) -> MessageDataView {
        MessageDataView { from: self.from@, message: self.message@ }
    }
}

impl DeepView for MessageData {
    type V = MessageDataView;

    open spec fn deep_view(&self) -> MessageDataView {
        self.view()
    }
}

/// Copies a byte vector.
pub(crate) fn copy_bytes(v: &Vec<u8>) -> (out: Vec<u8>)
    ensures
        out@ == v@,
{
    let mut out: Vec<u8> = Vec::new();
    let mut k: usize = 0;
    while k < v.len()
        invariant
            k <= v@.len(),
            out@ == v@.subrange(0, k as int),
        decreases v@.len() - k,
    {
        out.push(v[k]);
        proof {
            assert(out@ =~= v@.subrange(0, k as int + 1));
        }
        k = k + 1;
    }
    proof {
        assert(v@.subrange(0, v@.len() as int) =~= v@);
    }
    out
}

/// An envelope is well formed when its payload shape matches its tag:
/// `Users` carries the list and no text, `Register` and `Message` carry
/// text and no list.
pub open spec fn wf_envelope(v: EnvView) -> bool {
    match v.kind {
        MsgTypes::Users => v.arr is Some && v.text is None,
        MsgTypes::Register => v.text is Some && v.arr is None,
        MsgTypes::Message => v.text is Some && v.arr is None,
    }
}

/// The fixed lowercase wire form of a tag, as the bytes of a JSON string
/// (`users`, `register`, `message`).
pub open spec fn tag_bytes(t: MsgTypes) -> Seq<u8> {
    match t {
        MsgTypes::Users => seq![117u8, 115, 101, 114, 115],
        MsgTypes::Register => seq![114u8, 101, 103, 105, 115, 116, 101, 114],
        MsgTypes::Message => seq![109u8, 101, 115, 115, 97, 103, 101],
    }
}

/// The bytes of `{"messageType":"`, up to and including the quote that
/// opens the tag.
pub open spec fn lit_header() -> Seq<u8> {
    seq![123u8, 34, 109, 101, 115, 115, 97, 103, 101, 84, 121, 112, 101, 34, 58, 34]
}

/// The bytes of `,"dataArray":` (the quote closing the tag comes first,
/// on its own).
pub open spec fn lit_mid_array() -> Seq<u8> {
    seq![44u8, 34, 100, 97, 116, 97, 65, 114, 114, 97, 121, 34, 58]
}

/// The bytes of `,"data":`.
pub open spec fn lit_mid_data() -> Seq<u8> {
    seq![44u8, 34, 100, 97, 116, 97, 34, 58]
}

/// The bytes of `{"from":`.
pub open spec fn lit_from() -> Seq<u8> {
    seq![123u8, 34, 102, 114, 111, 109, 34, 58]
}

/// The bytes of `,"message":`.
pub open spec fn lit_mid_message() -> Seq<u8> {
    seq![44u8, 34, 109, 101, 115, 115, 97, 103, 101, 34, 58]
}

/// The bytes of `null`.
pub open spec fn lit_null() -> Seq<u8> {
    seq![110u8, 117, 108, 108]
}

/// How one byte of string content appears on the wire: `"` and `\` gain a
/// leading backslash, every other byte stands for itself.
pub open spec fn esc_byte(b: u8) -> Seq<u8> {
    if b == QUOTE || b == BACKSLASH {
        seq![BACKSLASH, b]
    } else {
        seq![b]
    }
}

/// String content on the wire: each byte escaped in order.
pub open spec fn esc(s: Seq<u8>) -> Seq<u8>
    decreases s.len(),
{
    if s.len() == 0 {
        Seq::empty()
    } else {
        esc_byte(s[0]) + esc(s.subrange(1, s.len() as int))
    }
}

/// A string on the wire: quote, escaped content, quote.
pub open spec fn enc_str(s: Seq<u8>) -> Seq<u8> {
    seq![QUOTE] + esc(s) + seq![QUOTE]
}

/// The elements of a non-empty array on the wire: strings joined by commas.
pub open spec fn enc_items(a: Seq<Seq<u8>>) -> Seq<u8>
    decreases a.len(),
{
    if a.len() == 0 {
        Seq::empty()
    } else if a.len() == 1 {
        enc_str(a[0])
    } else {
        enc_str(a[0]) + seq![COMMA] + enc_items(a.subrange(1, a.len() as int))
    }
}

/// An array of strings on the wire.
pub open spec fn enc_arr(a: Seq<Seq<u8>>) -> Seq<u8> {
    seq![LBRACKET] + enc_items(a) + seq![RBRACKET]
}

/// An optional string on the wire: `null` or the string.
pub open spec fn enc_opt_str(o: Option<Seq<u8>>) -> Seq<u8> {
    match o {
        Option::None => lit_null(),
        Option::Some(s) => enc_str(s),
    }
}

/// An optional array on the wire: `null` or the array.
pub open spec fn enc_opt_arr(o: Option<Seq<Seq<u8>>>) -> Seq<u8> {
    match o {
        Option::None => lit_null(),
        Option::Some(a) => enc_arr(a),
    }
}

/// The one wire form of an envelope value. Total: defined for every value,
/// well formed or not; decoding accepts only the well-formed ones.
pub open spec fn encode_spec(v: EnvView) -> Seq<u8> {
    lit_header() + tag_bytes(v.kind) + seq![QUOTE] + lit_mid_array() + enc_opt_arr(v.arr)
        + lit_mid_data() + enc_opt_str(v.text) + seq![RBRACE]
}

/// The one wire form of a nested message payload.
pub open spec fn encode_message_spec(m: MessageDataView) -> Seq<u8> {
    lit_from() + enc_str(m.from) + lit_mid_message() + enc_str(m.message) + seq![RBRACE]
}

/// Escaping distributes over appending one byte.
pub proof fn lemma_esc_push(s: Seq<u8>, b: u8)
    ensures
        esc(s.push(b)) == esc(s) + esc_byte(b),
    decreases s.len(),
{
    if s.len() == 0 {
        assert(s.push(b).subrange(1, s.push(b).len() as int) =~= Seq::<u8>::empty());
        assert(s.push(b)[0] == b);
        assert(esc(Seq::<u8>::empty()) == Seq::<u8>::empty());
        assert(esc(s.push(b)) == esc_byte(b) + Seq::<u8>::empty());
        assert(esc_byte(b) + Seq::<u8>::empty() =~= Seq::<u8>::empty() + esc_byte(b));
    } else {
        let t = s.subrange(1, s.len() as int);
        lemma_esc_push(t, b);
        assert(s.push(b).subrange(1, s.push(b).len() as int) =~= t.push(b));
        assert(s.push(b)[0] == s[0]);
        assert(esc(s.push(b)) == esc_byte(s[0]) + esc(t.push(b)));
        assert(esc(s.push(b)) == esc_byte(s[0]) + (esc(t) + esc_byte(b)));
        assert(esc_byte(s[0]) + (esc(t) + esc_byte(b)) =~= (esc_byte(s[0]) + esc(t)) + esc_byte(b));
        assert(esc(s) == esc_byte(s[0]) + esc(t));
    }
}

/// One more element of a non-empty array adds a comma and its string.
pub proof fn lemma_enc_items_push(a: Seq<Seq<u8>>, x: Seq<u8>)
    requires
        a.len() > 0,
    ensures
        enc_items(a.push(x)) == enc_items(a) + seq![COMMA] + enc_str(x),
    decreases a.len(),
{
    if a.len() == 1 {
        assert(a.push(x)[0] == a[0]);
        assert(a.push(x).subrange(1, a.push(x).len() as int) =~= seq![x]);
        assert(enc_items(seq![x]) == enc_str(x));
        assert(enc_items(a.push(x)) =~= enc_items(a) + seq![COMMA] + enc_str(x));
    } else {
        lemma_enc_items_push(a.subrange(1, a.len() as int), x);
        assert(a.push(x)[0] == a[0]);
        assert(a.push(x).subrange(1, a.push(x).len() as int) =~= a.subrange(1, a.len() as int).push(x));
        assert(enc_items(a.push(x)) =~= enc_items(a) + seq![COMMA] + enc_str(x));
    }
}

/// Writes the tag of `t` in its fixed lowercase wire form.
fn push_tag(out: &mut Vec<u8>, t: MsgTypes)
    ensures
        final(out)@ == old(out)@ + tag_bytes(t),
{
    match t {
        MsgTypes::Users => {
            out.push(117);
            out.push(115);
            out.push(101);
            out.push(114);
            out.push(115);
        }
        MsgTypes::Register => {
            out.push(114);
            out.push(101);
            out.push(103);
            out.push(105);
            out.push(115);
            out.push(116);
            out.push(101);
            out.push(114);
        }
        MsgTypes::Message => {
            out.push(109);
            out.push(101);
            out.push(115);
            out.push(115);
            out.push(97);
            out.push(103);
            out.push(101);
        }
    }
    assert(out@ =~= old(out)@ + tag_bytes(t));
}

fn push_lit_header(out: &mut Vec<u8>)
    ensures
        final(out)@ == old(out)@ + lit_header(),
{
    out.push(123);
    out.push(34);
    out.push(109);
    out.push(101);
    out.push(115);
    out.push(115);
    out.push(97);
    out.push(103);
    out.push(101);
    out.push(84);
    out.push(121);
    out.push(112);
    out.push(101);
    out.push(34);
    out.push(58);
    out.push(34);
    assert(out@ =~= old(out)@ + lit_header());
}

fn push_lit_mid_array(out: &mut Vec<u8>)
    ensures
        final(out)@ == old(out)@ + lit_mid_array(),
{
    out.push(44);
    out.push(34);
    out.push(100);
    out.push(97);
    out.push(116);
    out.push(97);
    out.push(65);
    out.push(114);
    out.push(114);
    out.push(97);
    out.push(121);
    out.push(34);
    out.push(58);
    assert(out@ =~= old(out)@ + lit_mid_array());
}

fn push_lit_mid_data(out: &mut Vec<u8>)
    ensures
        final(out)@ == old(out)@ + lit_mid_data(),
{
    out.push(44);
    out.push(34);
    out.push(100);
    out.push(97);
    out.push(116);
    out.push(97);
    out.push(34);
    out.push(58);
    assert(out@ =~= old(out)@ + lit_mid_data());
}

fn push_lit_from(out: &mut Vec<u8>)
    ensures
        final(out)@ == old(out)@ + lit_from(),
{
    out.push(123);
    out.push(34);
    out.push(102);
    out.push(114);
    out.push(111);
    out.push(109);
    out.push(34);
    out.push(58);
    assert(out@ =~= old(out)@ + lit_from());
}

fn push_lit_mid_message(out: &mut Vec<u8>)
    ensures
        final(out)@ == old(out)@ + lit_mid_message(),
{
    out.push(44);
    out.push(34);
    out.push(109);
    out.push(101);
    out.push(115);
    out.push(115);
    out.push(97);
    out.push(103);
    out.push(101);
    out.push(34);
    out.push(58);
    assert(out@ =~= old(out)@ + lit_mid_message());
}

fn push_lit_null(out: &mut Vec<u8>)
    ensures
        final(out)@ == old(out)@ + lit_null(),
{
    out.push(110);
    out.push(117);
    out.push(108);
    out.push(108);
    assert(out@ =~= old(out)@ + lit_null());
}

/// Writes the content of a string with `"` and `\` escaped.
fn push_escaped(out: &mut Vec<u8>, s: &Vec<u8>)
    ensures
        final(out)@ == old(out)@ + esc(s@),
{
    let ghost base = out@;
    let mut k: usize = 0;
    while k < s.len()
        invariant
            k <= s.len(),
            out@ == base + esc(s@.subrange(0, k as int)),
        decreases s.len() - k,
    {
        let b = s[k];
        if b == QUOTE || b == BACKSLASH {
            out.push(BACKSLASH);
        }
        out.push(b);
        proof {
            lemma_esc_push(s@.subrange(0, k as int), b);
            assert(s@.subrange(0, k as int + 1) =~= s@.subrange(0, k as int).push(b));
            assert(out@ =~= base + esc(s@.subrange(0, k as int + 1)));
        }
        k = k + 1;
    }
    proof {
        assert(s@.subrange(0, s@.len() as int) =~= s@);
    }
}

/// Writes a string: quote, escaped content, quote.
fn push_str_value(out: &mut Vec<u8>, s: &Vec<u8>)
    ensures
        final(out)@ == old(out)@ + enc_str(s@),
{
    out.push(QUOTE);
    push_escaped(out, s);
    out.push(QUOTE);
    assert(out@ =~= old(out)@ + enc_str(s@));
}

/// Writes an array of strings.
fn push_arr_value(out: &mut Vec<u8>, a: &Vec<Vec<u8>>)
    ensures
        final(out)@ == old(out)@ + enc_arr(a.deep_view()),
{
    let ghost base = out@;
    out.push(LBRACKET);
    let mut k: usize = 0;
    while k < a.len()
        invariant
            k <= a.len(),
            out@ == base + seq![LBRACKET] + enc_items(a.deep_view().subrange(0, k as int)),
        decreases a.len() - k,
    {
        let ghost before = out@;
        if k > 0 {
            out.push(COMMA);
        }
        push_str_value(out, &a[k]);
        proof {
            let p = a.deep_view().subrange(0, k as int);
            let x = a.deep_view()[k as int];
            assert(x =~= a@[k as int]@);
            assert(a.deep_view().subrange(0, k as int + 1) =~= p.push(x));
            if k > 0 {
                lemma_enc_items_push(p, x);
                assert(out@ == (before + seq![COMMA]) + enc_str(x));
                assert((before + seq![COMMA]) + enc_str(x) =~= base + seq![LBRACKET] + (enc_items(p)
                    + seq![COMMA] + enc_str(x)));
            } else {
                assert(p.push(x) =~= seq![x]);
                assert(enc_items(seq![x]) == enc_str(x));
                assert(out@ == before + enc_str(x));
                assert(enc_items(p) =~= Seq::<u8>::empty());
                assert(before + enc_str(x) =~= base + seq![LBRACKET] + enc_str(x));
            }
            assert(out@ =~= base + seq![LBRACKET] + enc_items(a.deep_view().subrange(0, k as int + 1)));
        }
        k = k + 1;
    }
    out.push(RBRACKET);
    proof {
        assert(a.deep_view().subrange(0, a.deep_view().len() as int) =~= a.deep_view());
        assert(out@ =~= base + enc_arr(a.deep_view()));
    }
}

/// Encodes an envelope into its one wire form. Total: succeeds for every
/// envelope value; only well-formed ones decode back (see
/// [`lemma_decode_encode`]).
pub fn encode(m: &WebSocketMessage) -> (out: Vec<u8>)
    ensures
        out@ == encode_spec(m@),
{
    let mut out: Vec<u8> = Vec::new();
    push_lit_header(&mut out);
    push_tag(&mut out, m.message_type);
    out.push(QUOTE);
    push_lit_mid_array(&mut out);
    match &m.data_array {
        Option::None => push_lit_null(&mut out),
        Option::Some(a) => push_arr_value(&mut out, a),
    }
    proof {
        assert(out@ =~= lit_header() + tag_bytes(m@.kind) + seq![QUOTE] + lit_mid_array()
            + enc_opt_arr(m@.arr));
    }
    push_lit_mid_data(&mut out);
    match &m.data {
        Option::None => push_lit_null(&mut out),
        Option::Some(s) => {
            push_str_value(&mut out, s);
            proof {
                assert(s.deep_view() =~= s@);
            }
        }
    }
    proof {
        assert(out@ =~= lit_header() + tag_bytes(m@.kind) + seq![QUOTE] + lit_mid_array()
            + enc_opt_arr(m@.arr) + lit_mid_data() + enc_opt_str(m@.text));
    }
    out.push(RBRACE);
    assert(out@ =~= encode_spec(m@));
    out
}

// ---------------------------------------------------------------------------
// The spec-level parser: the one reading of a frame under the wire grammar.
// ---------------------------------------------------------------------------

/// Consumes the fixed bytes `lit` at position `i`, or fails.
pub open spec fn sp_lit(s: Seq<u8>, i: int, lit: Seq<u8>) -> Option<int> {
    if 0 <= i && i + lit.len() <= s.len() && s.subrange(i, i + lit.len()) == lit {
        Option::Some(i + lit.len())
    } else {
        Option::None
    }
}

/// Consumes escaped string content from position `i` through the closing
/// quote; yields the unescaped content and the position after the quote.
/// A backslash must be followed by `"` or `\`.
pub open spec fn sp_chars(s: Seq<u8>, i: int) -> Option<(Seq<u8>, int)>
    decreases s.len() - i,
{
    if i < 0 || i >= s.len() {
        Option::None
    } else if s[i] == QUOTE {
        Option::Some((Seq::empty(), i + 1))
    } else if s[i] == BACKSLASH {
        if i + 1 < s.len() && (s[i + 1] == QUOTE || s[i + 1] == BACKSLASH) {
            match sp_chars(s, i + 2) {
                Option::Some(p) => Option::Some((seq![s[i + 1]] + p.0, p.1)),
                Option::None => Option::None,
            }
        } else {
            Option::None
        }
    } else {
        match sp_chars(s, i + 1) {
            Option::Some(p) => Option::Some((seq![s[i]] + p.0, p.1)),
            Option::None => Option::None,
        }
    }
}

/// Consumes a whole string (opening quote included) at position `i`.
pub open spec fn sp_string(s: Seq<u8>, i: int) -> Option<(Seq<u8>, int)> {
    if 0 <= i < s.len() && s[i] == QUOTE {
        sp_chars(s, i + 1)
    } else {
        Option::None
    }
}

/// Consumes one or more comma-separated strings and the closing `]`.
pub open spec fn sp_strings(s: Seq<u8>, i: int) -> Option<(Seq<Seq<u8>>, int)>
    decreases s.len() - i,
{
    match sp_string(s, i) {
        Option::Some(p) => {
            let x = p.0;
            let j = p.1;
            if j < s.len() && s[j] == RBRACKET {
                Option::Some((seq![x], j + 1))
            } else if j < s.len() && s[j] == COMMA && i < j {
                match sp_strings(s, j + 1) {
                    Option::Some(q) => Option::Some((seq![x] + q.0, q.1)),
                    Option::None => Option::None,
                }
            } else {
                Option::None
            }
        }
        Option::None => Option::None,
    }
}

/// Consumes an array of strings, `[]` included, at position `i`.
pub open spec fn sp_arr(s: Seq<u8>, i: int) -> Option<(Seq<Seq<u8>>, int)> {
    if 0 <= i < s.len() && s[i] == LBRACKET {
        if i + 1 < s.len() && s[i + 1] == RBRACKET {
            Option::Some((Seq::empty(), i + 2))
        } else {
            sp_strings(s, i + 1)
        }
    } else {
        Option::None
    }
}

/// Consumes `null` or an array of strings.
pub open spec fn sp_opt_arr(s: Seq<u8>, i: int) -> Option<(Option<Seq<Seq<u8>>>, int)> {
    match sp_lit(s, i, lit_null()) {
        Option::Some(j) => Option::Some((Option::None, j)),
        Option::None => match sp_arr(s, i) {
            Option::Some(p) => Option::Some((Option::Some(p.0), p.1)),
            Option::None => Option::None,
        },
    }
}

/// Consumes `null` or a string.
pub open spec fn sp_opt_str(s: Seq<u8>, i: int) -> Option<(Option<Seq<u8>>, int)> {
    match sp_lit(s, i, lit_null()) {
        Option::Some(j) => Option::Some((Option::None, j)),
        Option::None => match sp_string(s, i) {
            Option::Some(p) => Option::Some((Option::Some(p.0), p.1)),
            Option::None => Option::None,
        },
    }
}

/// The structural reading of a whole frame: the unescaped tag, the optional
/// array and the optional text, provided the frame is exactly one envelope.
pub open spec fn parse_envelope(s: Seq<u8>) -> Option<(Seq<u8>, Option<Seq<Seq<u8>>>, Option<Seq<u8>>)> {
    match sp_lit(s, 0, lit_header()) {
        Option::Some(i1) => match sp_chars(s, i1) {
            Option::Some(tp) => match sp_lit(s, tp.1, lit_mid_array()) {
                Option::Some(i2) => match sp_opt_arr(s, i2) {
                    Option::Some(ap) => match sp_lit(s, ap.1, lit_mid_data()) {
                        Option::Some(i3) => match sp_opt_str(s, i3) {
                            Option::Some(dp) => {
                                if dp.1 < s.len() && s[dp.1] == RBRACE && dp.1 + 1 == s.len() {
                                    Option::Some((tp.0, ap.0, dp.0))
                                } else {
                                    Option::None
                                }
                            }
                            Option::None => Option::None,
                        },
                        Option::None => Option::None,
                    },
                    Option::None => Option::None,
                },
                Option::None => Option::None,
            },
            Option::None => Option::None,
        },
        Option::None => Option::None,
    }
}

/// What decoding a frame yields: the envelope for exactly the encodings of
/// well-formed envelopes, `Malformed` when the frame is not in the grammar,
/// `SchemaMismatch` when the payload shape contradicts the tag or the tag
/// is unrecognized.
pub open spec fn decode_spec(s: Seq<u8>) -> Result<EnvView, DecodeError> {
    match parse_envelope(s) {
        Option::None => Result::Err(DecodeError::Malformed),
        Option::Some(t) => {
            let tag = t.0;
            let arr = t.1;
            let dat = t.2;
            if tag == tag_bytes(MsgTypes::Users) {
                if arr is Some && dat is None {
                    Result::Ok(EnvView { kind: MsgTypes::Users, arr: arr, text: Option::None })
                } else {
                    Result::Err(DecodeError::SchemaMismatch)
                }
            } else if tag == tag_bytes(MsgTypes::Register) {
                if dat is Some && arr is None {
                    Result::Ok(EnvView { kind: MsgTypes::Register, arr: Option::None, text: dat })
                } else {
                    Result::Err(DecodeError::SchemaMismatch)
                }
            } else if tag == tag_bytes(MsgTypes::Message) {
                if dat is Some && arr is None {
                    Result::Ok(EnvView { kind: MsgTypes::Message, arr: Option::None, text: dat })
                } else {
                    Result::Err(DecodeError::SchemaMismatch)
                }
            } else {
                Result::Err(DecodeError::SchemaMismatch)
            }
        }
    }
}

/// The structural reading of a nested message payload.
pub open spec fn parse_message_data(s: Seq<u8>) -> Option<MessageDataView> {
    match sp_lit(s, 0, lit_from()) {
        Option::Some(i1) => match sp_string(s, i1) {
            Option::Some(fp) => match sp_lit(s, fp.1, lit_mid_message()) {
                Option::Some(i2) => match sp_string(s, i2) {
                    Option::Some(mp) => {
                        if mp.1 < s.len() && s[mp.1] == RBRACE && mp.1 + 1 == s.len() {
                            Option::Some(MessageDataView { from: fp.0, message: mp.0 })
                        } else {
                            Option::None
                        }
                    }
                    Option::None => Option::None,
                },
                Option::None => Option::None,
            },
            Option::None => Option::None,
        },
        Option::None => Option::None,
    }
}

/// What decoding a nested message payload yields.
pub open spec fn decode_message_spec(s: Seq<u8>) -> Result<MessageDataView, DecodeError> {
    match parse_message_data(s) {
        Option::Some(m) => Result::Ok(m),
        Option::None => Result::Err(DecodeError::Malformed),
    }
}

// ---------------------------------------------------------------------------
// Facts about the spec parser.
// ---------------------------------------------------------------------------

/// String content consumes at least the closing quote and stays in bounds.
pub proof fn lemma_sp_chars_bounds(s: Seq<u8>, i: int)
    ensures
        sp_chars(s, i) matches Some(p) ==> i < p.1 <= s.len(),
    decreases s.len() - i,
{
    if i < 0 || i >= s.len() {
    } else if s[i] == QUOTE {
    } else if s[i] == BACKSLASH {
        if i + 1 < s.len() && (s[i + 1] == QUOTE || s[i + 1] == BACKSLASH) {
            lemma_sp_chars_bounds(s, i + 2);
        }
    } else {
        lemma_sp_chars_bounds(s, i + 1);
    }
}

/// What string content parses from is exactly the escaping of what it
/// yields, closing quote included.
pub proof fn lemma_sp_chars_sound(s: Seq<u8>, i: int)
    ensures
        sp_chars(s, i) matches Some(p) ==> i < p.1 <= s.len() && s.subrange(i, p.1) == esc(p.0)
            + seq![QUOTE],
    decreases s.len() - i,
{
    if i < 0 || i >= s.len() {
    } else if s[i] == QUOTE {
        assert(s.subrange(i, i + 1) =~= esc(Seq::<u8>::empty()) + seq![QUOTE]);
    } else if s[i] == BACKSLASH {
        if i + 1 < s.len() && (s[i + 1] == QUOTE || s[i + 1] == BACKSLASH) {
            lemma_sp_chars_sound(s, i + 2);
            match sp_chars(s, i + 2) {
                Option::Some(q) => {
                    let x = seq![s[i + 1]] + q.0;
                    assert(x[0] == s[i + 1]);
                    assert(x.subrange(1, x.len() as int) =~= q.0);
                    assert(esc(x) == esc_byte(s[i + 1]) + esc(q.0));
                    assert(s.subrange(i, q.1) =~= seq![s[i], s[i + 1]] + s.subrange(i + 2, q.1));
                    assert(esc_byte(s[i + 1]) == seq![BACKSLASH, s[i + 1]]);
                    assert(s.subrange(i, q.1) =~= esc(x) + seq![QUOTE]);
                }
                Option::None => {}
            }
        }
    } else {
        lemma_sp_chars_sound(s, i + 1);
        match sp_chars(s, i + 1) {
            Option::Some(q) => {
                let x = seq![s[i]] + q.0;
                assert(x[0] == s[i]);
                assert(x.subrange(1, x.len() as int) =~= q.0);
                assert(esc(x) == esc_byte(s[i]) + esc(q.0));
                assert(esc_byte(s[i]) == seq![s[i]]);
                assert(s.subrange(i, q.1) =~= seq![s[i]] + s.subrange(i + 1, q.1));
                assert(s.subrange(i, q.1) =~= esc(x) + seq![QUOTE]);
            }
            Option::None => {}
        }
    }
}

/// A window inside a larger window of `s` is the same bytes either way.
proof fn lemma_subrange_within(s: Seq<u8>, i: int, j: int, a: int, b: int)
    requires
        0 <= i <= a <= b <= j <= s.len(),
    ensures
        s.subrange(a, b) == s.subrange(i, j).subrange(a - i, b - i),
{
    assert(s.subrange(a, b) =~= s.subrange(i, j).subrange(a - i, b - i));
}

/// Escaped content followed by a quote parses back to what was escaped.
pub proof fn lemma_sp_chars_complete(s: Seq<u8>, i: int, x: Seq<u8>)
    requires
        0 <= i,
        i + esc(x).len() + 1 <= s.len(),
        s.subrange(i, i + esc(x).len() + 1) == esc(x) + seq![QUOTE],
    ensures
        sp_chars(s, i) == Option::Some((x, i + esc(x).len() + 1)),
    decreases x.len(),
{
    let seg = esc(x) + seq![QUOTE];
    if x.len() == 0 {
        assert(esc(x) == Seq::<u8>::empty());
        assert(s[i] == seg[0]);
        assert(s[i] == QUOTE);
        assert(x =~= Seq::<u8>::empty());
    } else {
        let c = x[0];
        let rest = x.subrange(1, x.len() as int);
        assert(esc(x) == esc_byte(c) + esc(rest));
        if c == QUOTE || c == BACKSLASH {
            assert(esc_byte(c) == seq![BACKSLASH, c]);
            assert(s[i] == seg[0]);
            assert(s[i] == BACKSLASH);
            assert(s[i + 1] == seg[1]);
            assert(s[i + 1] == c);
            lemma_subrange_within(s, i, i + esc(x).len() + 1, i + 2, i + 2 + esc(rest).len() + 1);
            assert(seg.subrange(2int, 2 + esc(rest).len() as int + 1) =~= esc(rest) + seq![QUOTE]);
            assert(s.subrange(i + 2, i + 2 + esc(rest).len() + 1) == esc(rest) + seq![QUOTE]);
            lemma_sp_chars_complete(s, i + 2, rest);
            assert(seq![c] + rest =~= x);
        } else {
            assert(esc_byte(c) == seq![c]);
            assert(s[i] == seg[0]);
            assert(s[i] == c);
            lemma_subrange_within(s, i, i + esc(x).len() + 1, i + 1, i + 1 + esc(rest).len() + 1);
            assert(seg.subrange(1int, 1 + esc(rest).len() as int + 1) =~= esc(rest) + seq![QUOTE]);
            assert(s.subrange(i + 1, i + 1 + esc(rest).len() + 1) == esc(rest) + seq![QUOTE]);
            lemma_sp_chars_complete(s, i + 1, rest);
            assert(seq![c] + rest =~= x);
        }
    }
}

/// What a string list parses from is exactly its encoding, closing bracket
/// included; at least one string is yielded.
pub proof fn lemma_sp_strings_sound(s: Seq<u8>, i: int)
    ensures
        sp_strings(s, i) matches Some(p) ==> p.0.len() >= 1 && i < p.1 <= s.len() && s.subrange(
            i,
            p.1,
        ) == enc_items(p.0) + seq![RBRACKET],
    decreases s.len() - i,
{
    match sp_string(s, i) {
        Option::Some(sp) => {
            let x = sp.0;
            let j = sp.1;
            lemma_sp_chars_sound(s, i + 1);
            assert(s.subrange(i, j) =~= seq![s[i]] + s.subrange(i + 1, j));
            assert(s.subrange(i, j) =~= enc_str(x));
            if j < s.len() && s[j] == RBRACKET {
                assert(enc_items(seq![x]) == enc_str(seq![x][0]));
                assert(seq![x][0] == x);
                assert(s.subrange(i, j + 1) =~= s.subrange(i, j) + seq![s[j]]);
                assert(s.subrange(i, j + 1) =~= enc_items(seq![x]) + seq![RBRACKET]);
            } else if j < s.len() && s[j] == COMMA && i < j {
                lemma_sp_strings_sound(s, j + 1);
                match sp_strings(s, j + 1) {
                    Option::Some(q) => {
                        let a = seq![x] + q.0;
                        assert(a[0] == x);
                        assert(a.subrange(1, a.len() as int) =~= q.0);
                        assert(a.len() >= 2);
                        assert(enc_items(a) == enc_str(x) + seq![COMMA] + enc_items(q.0));
                        assert(s.subrange(i, q.1) =~= s.subrange(i, j) + seq![s[j]] + s.subrange(
                            j + 1,
                            q.1,
                        ));
                        assert(s.subrange(i, q.1) =~= enc_items(a) + seq![RBRACKET]);
                    }
                    Option::None => {}
                }
            }
        }
        Option::None => {}
    }
}

/// An encoded non-empty string list followed by `]` parses back to itself.
pub proof fn lemma_sp_strings_complete(s: Seq<u8>, i: int, a: Seq<Seq<u8>>)
    requires
        0 <= i,
        a.len() >= 1,
        i + enc_items(a).len() + 1 <= s.len(),
        s.subrange(i, i + enc_items(a).len() + 1) == enc_items(a) + seq![RBRACKET],
    ensures
        sp_strings(s, i) == Option::Some((a, i + enc_items(a).len() + 1)),
    decreases a.len(),
{
    let seg = enc_items(a) + seq![RBRACKET];
    let x = a[0];
    let e = enc_str(x);
    if a.len() == 1 {
        assert(enc_items(a) == e);
        assert(s[i] == seg[0]);
        assert(s[i] == QUOTE);
        lemma_subrange_within(s, i, i + enc_items(a).len() + 1, i + 1, i + 1 + esc(x).len() + 1);
        assert(seg.subrange(1int, 1 + esc(x).len() as int + 1) =~= esc(x) + seq![QUOTE]);
        assert(s.subrange(i + 1, i + 1 + esc(x).len() + 1) == esc(x) + seq![QUOTE]);
        lemma_sp_chars_complete(s, i + 1, x);
        let j = i + 1 + esc(x).len() + 1;
        assert(sp_string(s, i) == Option::Some((x, j)));
        assert(s[j] == seg[j - i]);
        assert(s[j] == RBRACKET);
        assert(seq![x] =~= a);
    } else {
        let rest = a.subrange(1, a.len() as int);
        assert(enc_items(a) == e + seq![COMMA] + enc_items(rest));
        assert(s[i] == seg[0]);
        assert(s[i] == QUOTE);
        lemma_subrange_within(s, i, i + enc_items(a).len() + 1, i + 1, i + 1 + esc(x).len() + 1);
        assert(seg.subrange(1int, 1 + esc(x).len() as int + 1) =~= esc(x) + seq![QUOTE]);
        assert(s.subrange(i + 1, i + 1 + esc(x).len() + 1) == esc(x) + seq![QUOTE]);
        lemma_sp_chars_complete(s, i + 1, x);
        let j = i + 1 + esc(x).len() + 1;
        assert(sp_string(s, i) == Option::Some((x, j)));
        assert(s[j] == seg[j - i]);
        assert(s[j] == COMMA);
        assert(s[j] != RBRACKET);
        lemma_subrange_within(
            s,
            i,
            i + enc_items(a).len() + 1,
            j + 1,
            j + 1 + enc_items(rest).len() + 1,
        );
        assert(seg.subrange(j + 1 - i, j + 1 - i + enc_items(rest).len() + 1) =~= enc_items(rest)
            + seq![RBRACKET]);
        assert(s.subrange(j + 1, j + 1 + enc_items(rest).len() + 1) == enc_items(rest) + seq![
            RBRACKET,
        ]);
        lemma_sp_strings_complete(s, j + 1, rest);
        assert(seq![x] + rest =~= a);
        assert(j + 1 + enc_items(rest).len() + 1 == i + enc_items(a).len() + 1);
    }
}

// ---------------------------------------------------------------------------
// The executable parser, each function pinned to its spec counterpart.
// ---------------------------------------------------------------------------

/// Consumes escaped string content through the closing quote.
fn parse_chars(s: &Vec<u8>, i: usize) -> (r: Option<(Vec<u8>, usize)>)
    ensures
        r matches Some(p) ==> sp_chars(s@, i as int) == Option::Some((p.0@, p.1 as int)),
        r is None ==> sp_chars(s@, i as int) is None,
    decreases s@.len() - i,
{
    if i >= s.len() {
        return Option::None;
    }
    let b = s[i];
    if b == QUOTE {
        Option::Some((Vec::new(), i + 1))
    } else if b == BACKSLASH {
        if i + 1 < s.len() && (s[i + 1] == QUOTE || s[i + 1] == BACKSLASH) {
            let c = s[i + 1];
            match parse_chars(s, i + 2) {
                Option::Some(p) => {
                    let (mut t, j) = p;
                    let ghost t0 = t@;
                    let mut v: Vec<u8> = Vec::new();
                    v.push(c);
                    v.append(&mut t);
                    proof {
                        assert(v@ =~= seq![s@[i + 1]] + t0);
                    }
                    Option::Some((v, j))
                }
                Option::None => Option::None,
            }
        } else {
            Option::None
        }
    } else {
        match parse_chars(s, i + 1) {
            Option::Some(p) => {
                let (mut t, j) = p;
                let ghost t0 = t@;
                let mut v: Vec<u8> = Vec::new();
                v.push(b);
                v.append(&mut t);
                proof {
                    assert(v@ =~= seq![s@[i as int]] + t0);
                }
                Option::Some((v, j))
            }
            Option::None => Option::None,
        }
    }
}

/// Consumes a whole string (opening quote included).
fn parse_string(s: &Vec<u8>, i: usize) -> (r: Option<(Vec<u8>, usize)>)
    ensures
        r matches Some(p) ==> sp_string(s@, i as int) == Option::Some((p.0@, p.1 as int)),
        r is None ==> sp_string(s@, i as int) is None,
{
    if i < s.len() && s[i] == QUOTE {
        parse_chars(s, i + 1)
    } else {
        Option::None
    }
}

/// Consumes one or more comma-separated strings and the closing `]`.
fn parse_strings(s: &Vec<u8>, i: usize) -> (r: Option<(Vec<Vec<u8>>, usize)>)
    ensures
        r matches Some(p) ==> sp_strings(s@, i as int) == Option::Some(
            (p.0.deep_view(), p.1 as int),
        ),
        r is None ==> sp_strings(s@, i as int) is None,
    decreases s@.len() - i,
{
    match parse_string(s, i) {
        Option::None => Option::None,
        Option::Some(p) => {
            let (x, j) = p;
            proof {
                lemma_sp_chars_bounds(s@, i as int + 1);
            }
            if j < s.len() && s[j] == RBRACKET {
                let ghost xv = x@;
                let mut v: Vec<Vec<u8>> = Vec::new();
                v.push(x);
                proof {
                    assert(v.deep_view() =~~= seq![xv]);
                }
                Option::Some((v, j + 1))
            } else if j < s.len() && s[j] == COMMA {
                match parse_strings(s, j + 1) {
                    Option::None => Option::None,
                    Option::Some(q) => {
                        let (mut r2, k) = q;
                        let ghost r20 = r2.deep_view();
                        let ghost xv = x@;
                        let mut v: Vec<Vec<u8>> = Vec::new();
                        v.push(x);
                        v.append(&mut r2);
                        proof {
                            assert(v.deep_view() =~~= seq![xv] + r20);
                        }
                        Option::Some((v, k))
                    }
                }
            } else {
                Option::None
            }
        }
    }
}

/// Consumes an array of strings, `[]` included.
fn parse_arr(s: &Vec<u8>, i: usize) -> (r: Option<(Vec<Vec<u8>>, usize)>)
    ensures
        r matches Some(p) ==> sp_arr(s@, i as int) == Option::Some((p.0.deep_view(), p.1 as int)),
        r is None ==> sp_arr(s@, i as int) is None,
{
    if i < s.len() && s[i] == LBRACKET {
        if i + 1 < s.len() && s[i + 1] == RBRACKET {
            let v: Vec<Vec<u8>> = Vec::new();
            proof {
                assert(v.deep_view() =~= Seq::<Seq<u8>>::empty());
            }
            Option::Some((v, i + 2))
        } else {
            parse_strings(s, i + 1)
        }
    } else {
        Option::None
    }
}

/// Builds the bytes of `null`.
fn lit_null_vec() -> (v: Vec<u8>)
    ensures
        v@ == lit_null(),
{
    let mut v: Vec<u8> = Vec::new();
    push_lit_null(&mut v);
    proof {
        assert(v@ =~= lit_null());
    }
    v
}

/// Consumes the fixed bytes `lit` at position `i`, or fails.
fn eat_lit(s: &Vec<u8>, i: usize, lit: &Vec<u8>) -> (r: Option<usize>)
    ensures
        r matches Some(j) ==> sp_lit(s@, i as int, lit@) == Option::Some(j as int),
        r is None ==> sp_lit(s@, i as int, lit@) is None,
{
    if i > s.len() || lit.len() > s.len() - i {
        return Option::None;
    }
    let end: usize = i + lit.len();
    let mut k: usize = 0;
    while k < lit.len()
        invariant
            end == i + lit@.len(),
            i + lit@.len() <= s@.len(),
            k <= lit@.len(),
            forall|n: int| 0 <= n < k ==> s@[i + n] == lit@[n],
        decreases lit@.len() - k,
    {
        if s[i + k] != lit[k] {
            proof {
                assert(s@.subrange(i as int, i + lit@.len())[k as int] != lit@[k as int]);
            }
            return Option::None;
        }
        k = k + 1;
    }
    proof {
        assert(s@.subrange(i as int, i + lit@.len()) =~= lit@);
    }
    Option::Some(i + lit.len())
}

/// Consumes `null` or an array of strings.
fn parse_opt_arr(s: &Vec<u8>, i: usize) -> (r: Option<(Option<Vec<Vec<u8>>>, usize)>)
    ensures
        r matches Some(p) ==> sp_opt_arr(s@, i as int) == Option::Some(
            (p.0.deep_view(), p.1 as int),
        ),
        r is None ==> sp_opt_arr(s@, i as int) is None,
{
    let nl = lit_null_vec();
    match eat_lit(s, i, &nl) {
        Option::Some(j) => Option::Some((Option::None, j)),
        Option::None => match parse_arr(s, i) {
            Option::Some(p) => Option::Some((Option::Some(p.0), p.1)),
            Option::None => Option::None,
        },
    }
}

/// Consumes `null` or a string.
fn parse_opt_str(s: &Vec<u8>, i: usize) -> (r: Option<(Option<Vec<u8>>, usize)>)
    ensures
        r matches Some(p) ==> sp_opt_str(s@, i as int) == Option::Some(
            (p.0.deep_view(), p.1 as int),
        ),
        r is None ==> sp_opt_str(s@, i as int) is None,
{
    let nl = lit_null_vec();
    match eat_lit(s, i, &nl) {
        Option::Some(j) => Option::Some((Option::None, j)),
        Option::None => match parse_string(s, i) {
            Option::Some(p) => Option::Some((Option::Some(p.0), p.1)),
            Option::None => Option::None,
        },
    }
}

/// True exactly when the two byte vectors hold the same bytes.
pub(crate) fn bytes_eq(a: &Vec<u8>, b: &Vec<u8>) -> (r: bool)
    ensures
        r == (a@ == b@),
{
    if a.len() != b.len() {
        return false;
    }
    let mut k: usize = 0;
    while k < a.len()
        invariant
            a@.len() == b@.len(),
            k <= a@.len(),
            forall|n: int| 0 <= n < k ==> a@[n] == b@[n],
        decreases a@.len() - k,
    {
        if a[k] != b[k] {
            return false;
        }
        k = k + 1;
    }
    proof {
        assert(a@ =~= b@);
    }
    true
}

/// Builds the wire form of a tag.
fn tag_vec(t: MsgTypes) -> (v: Vec<u8>)
    ensures
        v@ == tag_bytes(t),
{
    let mut v: Vec<u8> = Vec::new();
    push_tag(&mut v, t);
    proof {
        assert(v@ =~= tag_bytes(t));
    }
    v
}

/// Decodes a frame. Accepts exactly the encodings of well-formed envelopes;
/// reports `Malformed` for text outside the wire grammar and
/// `SchemaMismatch` for a payload shape that contradicts its tag or an
/// unrecognized tag. Pure: nothing but the result leaves this function.
pub fn decode(s: &Vec<u8>) -> (r: Result<WebSocketMessage, DecodeError>)
    ensures
        r matches Ok(m) ==> decode_spec(s@) == Result::<EnvView, DecodeError>::Ok(m@),
        r matches Err(e) ==> decode_spec(s@) == Result::<EnvView, DecodeError>::Err(e),
{
    let lh = {
        let mut v: Vec<u8> = Vec::new();
        push_lit_header(&mut v);
        proof {
            assert(v@ =~= lit_header());
        }
        v
    };
    let i1 = match eat_lit(s, 0, &lh) {
        Option::Some(j) => j,
        Option::None => {
            return Result::Err(DecodeError::Malformed);
        }
    };
    let (tag, j1) = match parse_chars(s, i1) {
        Option::Some(p) => p,
        Option::None => {
            return Result::Err(DecodeError::Malformed);
        }
    };
    let lm = {
        let mut v: Vec<u8> = Vec::new();
        push_lit_mid_array(&mut v);
        proof {
            assert(v@ =~= lit_mid_array());
        }
        v
    };
    let i2 = match eat_lit(s, j1, &lm) {
        Option::Some(j) => j,
        Option::None => {
            return Result::Err(DecodeError::Malformed);
        }
    };
    let (arr, j2) = match parse_opt_arr(s, i2) {
        Option::Some(p) => p,
        Option::None => {
            return Result::Err(DecodeError::Malformed);
        }
    };
    let ld = {
        let mut v: Vec<u8> = Vec::new();
        push_lit_mid_data(&mut v);
        proof {
            assert(v@ =~= lit_mid_data());
        }
        v
    };
    let i3 = match eat_lit(s, j2, &ld) {
        Option::Some(j) => j,
        Option::None => {
            return Result::Err(DecodeError::Malformed);
        }
    };
    let (dat, j3) = match parse_opt_str(s, i3) {
        Option::Some(p) => p,
        Option::None => {
            return Result::Err(DecodeError::Malformed);
        }
    };
    if !(j3 < s.len() && s[j3] == RBRACE && j3 + 1 == s.len()) {
        return Result::Err(DecodeError::Malformed);
    }
    let users_tag = tag_vec(MsgTypes::Users);
    let register_tag = tag_vec(MsgTypes::Register);
    let message_tag = tag_vec(MsgTypes::Message);
    if bytes_eq(&tag, &users_tag) {
        if arr.is_some() && dat.is_none() {
            let m = WebSocketMessage {
                message_type: MsgTypes::Users,
                data_array: arr,
                data: Option::None,
            };
            proof {
                assert(decode_spec(s@) == Result::<EnvView, DecodeError>::Ok(m@));
            }
            Result::Ok(m)
        } else {
            Result::Err(DecodeError::SchemaMismatch)
        }
    } else if bytes_eq(&tag, &register_tag) {
        if dat.is_some() && arr.is_none() {
            let m = WebSocketMessage {
                message_type: MsgTypes::Register,
                data_array: Option::None,
                data: dat,
            };
            proof {
                assert(decode_spec(s@) == Result::<EnvView, DecodeError>::Ok(m@));
            }
            Result::Ok(m)
        } else {
            Result::Err(DecodeError::SchemaMismatch)
        }
    } else if bytes_eq(&tag, &message_tag) {
        if dat.is_some() && arr.is_none() {
            let m = WebSocketMessage {
                message_type: MsgTypes::Message,
                data_array: Option::None,
                data: dat,
            };
            proof {
                assert(decode_spec(s@) == Result::<EnvView, DecodeError>::Ok(m@));
            }
            Result::Ok(m)
        } else {
            Result::Err(DecodeError::SchemaMismatch)
        }
    } else {
        Result::Err(DecodeError::SchemaMismatch)
    }
}

/// Decodes a nested message payload. `Malformed` for anything but the one
/// wire form of a payload.
pub fn decode_message_data(s: &Vec<u8>) -> (r: Result<MessageData, DecodeError>)
    ensures
        r matches Ok(m) ==> decode_message_spec(s@) == Result::<MessageDataView, DecodeError>::Ok(m@),
        r matches Err(e) ==> decode_message_spec(s@) == Result::<MessageDataView, DecodeError>::Err(e),
{
    let lf = {
        let mut v: Vec<u8> = Vec::new();
        push_lit_from(&mut v);
        proof {
            assert(v@ =~= lit_from());
        }
        v
    };
    let i1 = match eat_lit(s, 0, &lf) {
        Option::Some(j) => j,
        Option::None => {
            return Result::Err(DecodeError::Malformed);
        }
    };
    let (from, j1) = match parse_string(s, i1) {
        Option::Some(p) => p,
        Option::None => {
            return Result::Err(DecodeError::Malformed);
        }
    };
    let lm = {
        let mut v: Vec<u8> = Vec::new();
        push_lit_mid_message(&mut v);
        proof {
            assert(v@ =~= lit_mid_message());
        }
        v
    };
    let i2 = match eat_lit(s, j1, &lm) {
        Option::Some(j) => j,
        Option::None => {
            return Result::Err(DecodeError::Malformed);
        }
    };
    let (message, j2) = match parse_string(s, i2) {
        Option::Some(p) => p,
        Option::None => {
            return Result::Err(DecodeError::Malformed);
        }
    };
    if !(j2 < s.len() && s[j2] == RBRACE && j2 + 1 == s.len()) {
        return Result::Err(DecodeError::Malformed);
    }
    let m = MessageData { from, message };
    Result::Ok(m)
}

/// Encodes a nested message payload into its one wire form.
pub fn encode_message_data(m: &MessageData) -> (out: Vec<u8>)
    ensures
        out@ == encode_message_spec(m@),
{
    let mut out: Vec<u8> = Vec::new();
    push_lit_from(&mut out);
    push_str_value(&mut out, &m.from);
    push_lit_mid_message(&mut out);
    push_str_value(&mut out, &m.message);
    out.push(RBRACE);
    assert(out@ =~= encode_message_spec(m@));
    out
}

// ---------------------------------------------------------------------------
// Round trip and soundness: decoding accepts exactly the encodings of the
// well-formed envelopes, and gives each one back unchanged.
// ---------------------------------------------------------------------------

/// Escaping changes nothing when no byte needs it.
pub proof fn lemma_esc_plain(s: Seq<u8>)
    requires
        forall|n: int| 0 <= n < s.len() ==> s[n] != QUOTE && s[n] != BACKSLASH,
    ensures
        esc(s) == s,
    decreases s.len(),
{
    if s.len() == 0 {
        assert(esc(s) =~= s);
    } else {
        let rest = s.subrange(1, s.len() as int);
        assert forall|n: int| 0 <= n < rest.len() implies rest[n] != QUOTE && rest[n] != BACKSLASH by {
            assert(rest[n] == s[n + 1]);
        }
        lemma_esc_plain(rest);
        assert(esc_byte(s[0]) == seq![s[0]]);
        assert(esc(s) =~= s);
    }
}

/// No tag holds a byte that escaping would touch.
pub proof fn lemma_tag_plain(t: MsgTypes)
    ensures
        esc(tag_bytes(t)) == tag_bytes(t),
{
    lemma_esc_plain(tag_bytes(t));
}

/// The three tags are pairwise distinct on the wire.
pub proof fn lemma_tags_distinct()
    ensures
        tag_bytes(MsgTypes::Users) != tag_bytes(MsgTypes::Register),
        tag_bytes(MsgTypes::Users) != tag_bytes(MsgTypes::Message),
        tag_bytes(MsgTypes::Register) != tag_bytes(MsgTypes::Message),
{
    assert(tag_bytes(MsgTypes::Users).len() == 5);
    assert(tag_bytes(MsgTypes::Register).len() == 8);
    assert(tag_bytes(MsgTypes::Message).len() == 7);
}

/// Round trip: the encoding of every well-formed envelope decodes back to
/// exactly that envelope.
#[verifier::rlimit(60)]
pub proof fn lemma_decode_encode(v: EnvView)
    requires
        wf_envelope(v),
    ensures
        decode_spec(encode_spec(v)) == Result::<EnvView, DecodeError>::Ok(v),
{
    let s = encode_spec(v);
    let tag = tag_bytes(v.kind);
    let tl = tag.len() as int;
    let dar = enc_opt_arr(v.arr);
    let dal = dar.len() as int;
    let dat = enc_opt_str(v.text);
    let dtl = dat.len() as int;
    let p1 = 16 + tl + 1;
    let p2 = p1 + 13;
    let p3 = p2 + dal;
    let p4 = p3 + 8;
    let p5 = p4 + dtl;
    assert(s.len() == p5 + 1);

    // `{"messageType":"`
    assert(s.subrange(0, 16) =~= lit_header());
    assert(sp_lit(s, 0, lit_header()) == Option::Some(16int));

    // the tag and its closing quote
    lemma_tag_plain(v.kind);
    assert(s.subrange(16, p1) =~= esc(tag) + seq![QUOTE]);
    lemma_sp_chars_complete(s, 16, tag);
    assert(sp_chars(s, 16) == Option::Some((tag, p1)));

    // `,"dataArray":`
    assert(s.subrange(p1, p2) =~= lit_mid_array());
    assert(sp_lit(s, p1, lit_mid_array()) == Option::Some(p2));

    // `null` or the array
    match v.arr {
        Option::None => {
            assert(s.subrange(p2, p3) =~= lit_null());
            assert(sp_lit(s, p2, lit_null()) == Option::Some(p3));
            assert(sp_opt_arr(s, p2) == Option::Some((Option::<Seq<Seq<u8>>>::None, p3)));
        }
        Option::Some(a) => {
            assert(s[p2] == LBRACKET);
            assert(s.subrange(p2, p2 + 4)[0] == LBRACKET);
            assert(sp_lit(s, p2, lit_null()) is None);
            if a.len() == 0 {
                assert(dar =~= seq![LBRACKET, RBRACKET]);
                assert(s[p2 + 1] == RBRACKET);
                assert(sp_arr(s, p2) == Option::Some((Seq::<Seq<u8>>::empty(), p2 + 2)));
                assert(a =~= Seq::<Seq<u8>>::empty());
            } else {
                assert(enc_items(a)[0] == enc_str(a[0])[0]);
                assert(s[p2 + 1] == enc_items(a)[0]);
                assert(s[p2 + 1] == QUOTE);
                assert(s[p2 + 1] != RBRACKET);
                assert(s.subrange(p2 + 1, p2 + 1 + enc_items(a).len() + 1) =~= enc_items(a) + seq![
                    RBRACKET,
                ]);
                lemma_sp_strings_complete(s, p2 + 1, a);
                assert(sp_arr(s, p2) == Option::Some((a, p3)));
            }
            assert(sp_opt_arr(s, p2) == Option::Some((v.arr, p3)));
        }
    }

    // `,"data":`
    assert(s.subrange(p3, p4) =~= lit_mid_data());
    assert(sp_lit(s, p3, lit_mid_data()) == Option::Some(p4));

    // `null` or the text
    match v.text {
        Option::None => {
            assert(s.subrange(p4, p5) =~= lit_null());
            assert(sp_lit(s, p4, lit_null()) == Option::Some(p5));
            assert(sp_opt_str(s, p4) == Option::Some((Option::<Seq<u8>>::None, p5)));
        }
        Option::Some(t) => {
            assert(s[p4] == QUOTE);
            if p4 + 4 <= s.len() {
                assert(s.subrange(p4, p4 + 4)[0] == QUOTE);
                assert(s.subrange(p4, p4 + 4) != lit_null());
            }
            assert(sp_lit(s, p4, lit_null()) is None);
            assert(s.subrange(p4 + 1, p4 + 1 + esc(t).len() + 1) =~= esc(t) + seq![QUOTE]);
            lemma_sp_chars_complete(s, p4 + 1, t);
            assert(sp_string(s, p4) == Option::Some((t, p5)));
            assert(sp_opt_str(s, p4) == Option::Some((v.text, p5)));
        }
    }

    // `}` and the end of the frame
    assert(s[p5] == RBRACE);
    assert(parse_envelope(s) == Option::Some((tag, v.arr, v.text)));

    // the schema dispatch gives the envelope back
    lemma_tags_distinct();
    match v.kind {
        MsgTypes::Users => {
            assert(decode_spec(s) == Result::<EnvView, DecodeError>::Ok(
                EnvView { kind: MsgTypes::Users, arr: v.arr, text: Option::None },
            ));
            assert(EnvView { kind: MsgTypes::Users, arr: v.arr, text: Option::None } =~= v);
        }
        MsgTypes::Register => {
            assert(EnvView { kind: MsgTypes::Register, arr: Option::None, text: v.text } =~= v);
        }
        MsgTypes::Message => {
            assert(EnvView { kind: MsgTypes::Message, arr: Option::None, text: v.text } =~= v);
        }
    }
}

/// Soundness: whatever decodes successfully is well formed, and the frame
/// it came from is exactly its encoding. With [`lemma_decode_encode`] this
/// pins decoding completely: one frame per envelope, one envelope per frame.
#[verifier::rlimit(60)]
pub proof fn lemma_decode_sound(s: Seq<u8>)
    ensures
        decode_spec(s) matches Ok(v) ==> wf_envelope(v) && s == encode_spec(v),
{
    match parse_envelope(s) {
        Option::None => {}
        Option::Some(parts) => {
            let tag = parts.0;
            match decode_spec(s) {
                Result::Err(_) => {}
                Result::Ok(v) => {
                    assert(tag == tag_bytes(v.kind));
                    assert(parts.1 == v.arr && parts.2 == v.text);
                    lemma_sp_chars_sound(s, 16);
                    match sp_chars(s, 16) {
                        Option::None => {}
                        Option::Some(tp) => {
                            let p1 = tp.1;
                            assert(s.subrange(16, p1) == esc(tag) + seq![QUOTE]);
                            lemma_tag_plain(v.kind);
                            let p2 = p1 + 13;
                            assert(s.subrange(p1, p2) == lit_mid_array());
                            match sp_opt_arr(s, p2) {
                                Option::None => {}
                                Option::Some(ap) => {
                                    let p3 = ap.1;
                                    lemma_sp_opt_arr_sound(s, p2);
                                    assert(s.subrange(p2, p3) == enc_opt_arr(v.arr));
                                    let p4 = p3 + 8;
                                    assert(s.subrange(p3, p4) == lit_mid_data());
                                    match sp_opt_str(s, p4) {
                                        Option::None => {}
                                        Option::Some(dp) => {
                                            let p5 = dp.1;
                                            lemma_sp_opt_str_sound(s, p4);
                                            assert(s.subrange(p4, p5) == enc_opt_str(v.text));
                                            assert(s[p5] == RBRACE && p5 + 1 == s.len());
                                            assert(s.subrange(0, 16) == lit_header());
                                            assert(s.subrange(0, p1) =~= s.subrange(0, 16)
                                                + s.subrange(16, p1));
                                            assert(s.subrange(0, p2) =~= s.subrange(0, p1)
                                                + s.subrange(p1, p2));
                                            assert(s.subrange(0, p3) =~= s.subrange(0, p2)
                                                + s.subrange(p2, p3));
                                            assert(s.subrange(0, p4) =~= s.subrange(0, p3)
                                                + s.subrange(p3, p4));
                                            assert(s.subrange(0, p5) =~= s.subrange(0, p4)
                                                + s.subrange(p4, p5));
                                            assert(s =~= s.subrange(0, p5) + seq![s[p5]]);
                                            assert(esc(tag) + seq![QUOTE] =~= tag_bytes(v.kind)
                                                + seq![QUOTE]);
                                            assert(s =~= encode_spec(v));
                                        }
                                    }
                                }
                            }
                        }
                    }
                }
            }
        }
    }
}

/// What `null` or an array parses from is exactly its encoding.
proof fn lemma_sp_opt_arr_sound(s: Seq<u8>, i: int)
    ensures
        sp_opt_arr(s, i) matches Some(p) ==> i < p.1 <= s.len() && s.subrange(i, p.1)
            == enc_opt_arr(p.0),
{
    match sp_lit(s, i, lit_null()) {
        Option::Some(j) => {
            assert(s.subrange(i, j) == lit_null());
        }
        Option::None => {
            match sp_arr(s, i) {
                Option::None => {}
                Option::Some(ap) => {
                    if i + 1 < s.len() && s[i + 1] == RBRACKET {
                        assert(s.subrange(i, i + 2) =~= seq![LBRACKET, RBRACKET]);
                        assert(enc_arr(Seq::<Seq<u8>>::empty()) =~= seq![LBRACKET, RBRACKET]);
                    } else {
                        lemma_sp_strings_sound(s, i + 1);
                        match sp_strings(s, i + 1) {
                            Option::None => {}
                            Option::Some(q) => {
                                assert(s.subrange(i, q.1) =~= seq![s[i]] + s.subrange(i + 1, q.1));
                                assert(s.subrange(i, q.1) =~= enc_arr(q.0));
                            }
                        }
                    }
                }
            }
        }
    }
}

/// What `null` or a string parses from is exactly its encoding.
proof fn lemma_sp_opt_str_sound(s: Seq<u8>, i: int)
    ensures
        sp_opt_str(s, i) matches Some(p) ==> i < p.1 <= s.len() && s.subrange(i, p.1)
            == enc_opt_str(p.0),
{
    match sp_lit(s, i, lit_null()) {
        Option::Some(j) => {
            assert(s.subrange(i, j) == lit_null());
        }
        Option::None => {
            match sp_string(s, i) {
                Option::None => {}
                Option::Some(p) => {
                    lemma_sp_chars_sound(s, i + 1);
                    assert(s.subrange(i, p.1) =~= seq![s[i]] + s.subrange(i + 1, p.1));
                    assert(s.subrange(i, p.1) =~= enc_str(p.0));
                }
            }
        }
    }
}

/// Round trip for the nested payload: the encoding of every payload
/// decodes back to exactly that payload.
#[verifier::rlimit(60)]
pub proof fn lemma_decode_encode_message(m: MessageDataView)
    ensures
        decode_message_spec(encode_message_spec(m)) == Result::<MessageDataView, DecodeError>::Ok(
            m,
        ),
{
    let s = encode_message_spec(m);
    let fl = esc(m.from).len() as int;
    let ml = esc(m.message).len() as int;
    let p1 = 8 + 1 + fl + 1;
    let p2 = p1 + 11;
    let p3 = p2 + 1 + ml + 1;
    assert(s.len() == p3 + 1);
    assert(s.subrange(0, 8) =~= lit_from());
    assert(sp_lit(s, 0, lit_from()) == Option::Some(8int));
    assert(s[8] == QUOTE);
    assert(s.subrange(9, p1) =~= esc(m.from) + seq![QUOTE]);
    lemma_sp_chars_complete(s, 9, m.from);
    assert(sp_string(s, 8) == Option::Some((m.from, p1)));
    assert(s.subrange(p1, p2) =~= lit_mid_message());
    assert(sp_lit(s, p1, lit_mid_message()) == Option::Some(p2));
    assert(s[p2] == QUOTE);
    assert(s.subrange(p2 + 1, p3) =~= esc(m.message) + seq![QUOTE]);
    lemma_sp_chars_complete(s, p2 + 1, m.message);
    assert(sp_string(s, p2) == Option::Some((m.message, p3)));
    assert(s[p3] == RBRACE);
    assert(parse_message_data(s) == Option::Some(
        MessageDataView { from: m.from, message: m.message },
    ));
    assert(MessageDataView { from: m.from, message: m.message } =~= m);
}

/// Soundness for the nested payload: whatever decodes successfully came
/// from exactly its encoding.
#[verifier::rlimit(60)]
pub proof fn lemma_decode_message_sound(s: Seq<u8>)
    ensures
        decode_message_spec(s) matches Ok(m) ==> s == encode_message_spec(m),
{
    match parse_message_data(s) {
        Option::None => {}
        Option::Some(m) => {
            match sp_string(s, 8) {
                Option::None => {}
                Option::Some(fp) => {
                    let p1 = fp.1;
                    lemma_sp_chars_sound(s, 9);
                    assert(s.subrange(9, p1) == esc(fp.0) + seq![QUOTE]);
                    let p2 = p1 + 11;
                    match sp_string(s, p2) {
                        Option::None => {}
                        Option::Some(mp) => {
                            let p3 = mp.1;
                            lemma_sp_chars_sound(s, p2 + 1);
                            assert(s.subrange(p2 + 1, p3) == esc(mp.0) + seq![QUOTE]);
                            assert(s.subrange(0, 8) == lit_from());
                            assert(s.subrange(p1, p2) == lit_mid_message());
                            assert(s[p3] == RBRACE && p3 + 1 == s.len());
                            assert(s.subrange(8, p1) =~= seq![s[8]] + s.subrange(9, p1));
                            assert(s.subrange(p2, p3) =~= seq![s[p2]] + s.subrange(p2 + 1, p3));
                            assert(s.subrange(0, p1) =~= s.subrange(0, 8) + s.subrange(8, p1));
                            assert(s.subrange(0, p2) =~= s.subrange(0, p1) + s.subrange(p1, p2));
                            assert(s.subrange(0, p3) =~= s.subrange(0, p2) + s.subrange(p2, p3));
                            assert(s =~= s.subrange(0, p3) + seq![s[p3]]);
                            assert(s =~= encode_message_spec(m));
                        }
                    }
                }
            }
        }
    }
}

} // verus!
