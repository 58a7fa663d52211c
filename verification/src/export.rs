//! The JSON design artifact and the text it is made of.
//!
//! The artifact is the contract between design and playback: this crate produces
//! it, the aircraft plays it back, and an estimator reads it to know which bins to
//! watch. Serialisation is written out by hand, so every byte of the document is
//! pinned down here.

use vstd::prelude::*;
use crate::calendar::{calendar_date, civil_from_days, days_from_civil, valid_date};
use crate::sha256::{hex, hex_text, sha256};
use vstd::string::StringExecFns;

verus! {

broadcast use vstd::string::group_string_axioms;

/// Appends one character to a string (`String::push`).
#[verifier::external_body]
pub(crate) fn push_char(s: &mut String, c: char)
    ensures
        final(s)@ == old(s)@.push(c),
{
    s.push(c);
}

/// The character of a decimal digit.
pub open spec fn digit_char(d: nat) -> char {
    (48 + d) as char
}

/// Decimal digits of `n`, most significant first, without leading zeros.
pub open spec fn decimal_text(n: nat) -> Seq<char>
    decreases n,
{
    if n < 10 {
        seq![digit_char(n)]
    } else {
        decimal_text(n / 10).push(digit_char(n % 10))
    }
}

fn digit(d: u64) -> (c: char)
    requires
        d < 10,
    ensures
        c == digit_char(d as nat),
{
    let b: u8 = 48u8 + d as u8;
    b as char
}

/// `n` in decimal.
pub fn decimal(n: u64) -> (s: String)
    ensures
        s@ == decimal_text(n as nat),
    decreases n,
{
    if n < 10 {
        let mut s = String::new();
        push_char(&mut s, digit(n));
        s
    } else {
        let mut s = decimal(n / 10);
        push_char(&mut s, digit(n % 10));
        s
    }
}

/// A lowercase hexadecimal digit.
pub open spec fn hex_char(d: nat) -> char {
    if d < 10 { (48 + d) as char } else { (87 + d) as char }
}

/// How one character appears inside a JSON string literal: quote, backslash and
/// the common control characters get their short escapes, other control
/// characters a `\u00XX` escape, and everything else stands as it is.
pub open spec fn escape_char(c: char) -> Seq<char> {
    if c == '"' {
        seq!['\\', '"']
    } else if c == '\\' {
        seq!['\\', '\\']
    } else if c == '\n' {
        seq!['\\', 'n']
    } else if c == '\r' {
        seq!['\\', 'r']
    } else if c == '\t' {
        seq!['\\', 't']
    } else if (c as u32) < 0x20 {
        seq!['\\', 'u', '0', '0', hex_char((c as u32 / 16) as nat), hex_char((c as u32 % 16) as nat)]
    } else {
        seq![c]
    }
}

/// The escaped form of a whole string: each character escaped in turn.
pub open spec fn escape_text(s: Seq<char>) -> Seq<char>
    decreases s.len(),
{
    if s.len() == 0 {
        Seq::empty()
    } else {
        escape_text(s.drop_last()) + escape_char(s.last())
    }
}

fn push_hex(out: &mut String, d: u32)
    requires
        d < 16,
    ensures
        final(out)@ == old(out)@.push(hex_char(d as nat)),
{
    let c: char = if d < 10 { (48u8 + d as u8) as char } else { (87u8 + d as u8) as char };
    push_char(out, c);
}

/// The value of a lowercase hexadecimal digit.
pub open spec fn hex_value(c: char) -> int {
    if (c as u32) <= 57 { c as u32 - 48 } else { c as u32 - 87 }
}

/// Read a JSON string literal's contents back: each escape stands for the
/// character it names.
pub open spec fn unescape_text(s: Seq<char>) -> Seq<char>
    decreases s.len(),
{
    if s.len() == 0 {
        Seq::empty()
    } else if s[0] != '\\' || s.len() < 2 {
        seq![s[0]] + unescape_text(s.drop_first())
    } else if s[1] == 'n' {
        seq!['\n'] + unescape_text(s.skip(2))
    } else if s[1] == 'r' {
        seq!['\r'] + unescape_text(s.skip(2))
    } else if s[1] == 't' {
        seq!['\t'] + unescape_text(s.skip(2))
    } else if s[1] == 'u' && s.len() >= 6 {
        seq![(hex_value(s[2]) * 4096 + hex_value(s[3]) * 256 + hex_value(s[4]) * 16 + hex_value(s[5])) as char]
            + unescape_text(s.skip(6))
    } else {
        seq![s[1]] + unescape_text(s.skip(2))
    }
}

/// Escaping distributes over concatenation.
proof fn lemma_escape_concat(a: Seq<char>, b: Seq<char>)
    ensures
        escape_text(a + b) == escape_text(a) + escape_text(b),
    decreases b.len(),
{
    if b.len() == 0 {
        assert(a + b =~= a);
        assert(escape_text(a) + escape_text(b) =~= escape_text(a));
    } else {
        lemma_escape_concat(a, b.drop_last());
        assert((a + b).drop_last() =~= a + b.drop_last());
        assert((a + b).last() == b.last());
        assert(escape_text(a + b) =~= escape_text(a) + escape_text(b));
    }
}

/// Reading back one escaped character gives the character.
proof fn lemma_unescape_char(c: char, rest: Seq<char>)
    ensures
        unescape_text(escape_char(c) + rest) == seq![c] + unescape_text(rest),
{
    let s = escape_char(c) + rest;
    if c == '"' || c == '\\' || c == '\n' || c == '\r' || c == '\t' {
        assert(s.skip(2) =~= rest);
    } else if (c as u32) < 0x20 {
        assert(s.skip(6) =~= rest);
        let v = c as u32;
        assert(hex_value(hex_char((v / 16) as nat)) == v / 16);
        assert(hex_value(hex_char((v % 16) as nat)) == v % 16);
        assert((v as int) as char == c);
    } else {
        assert(s.drop_first() =~= rest);
    }
}

/// The escaped text reads back as the string it was made from, so names survive the
/// artifact unchanged.
pub proof fn lemma_escape_round_trip(s: Seq<char>)
    ensures
        unescape_text(escape_text(s)) == s,
    decreases s.len(),
{
    if s.len() > 0 {
        let c = s[0];
        let t = s.drop_first();
        assert(s =~= seq![c] + t);
        lemma_escape_concat(seq![c], t);
        let one = seq![c];
        assert(one.drop_last() =~= Seq::<char>::empty());
        assert(one.last() == c);
        assert(escape_text(Seq::<char>::empty()) =~= Seq::<char>::empty());
        assert(escape_text(one) == escape_text(one.drop_last()) + escape_char(one.last()));
        assert(escape_text(one) =~= escape_char(c));
        lemma_unescape_char(c, escape_text(t));
        lemma_escape_round_trip(t);
    }
}

/// A character JSON lets stand as itself inside a string: not a quote, not a
/// backslash and not a control character.
pub open spec fn json_plain(c: char) -> bool {
    c != '"' && c != '\\' && (c as u32) >= 0x20
}

/// Escaping works character by character and touches only what JSON requires:
/// a plain character is written as itself, any other starts a backslash escape,
/// text made only of plain characters comes out unchanged, and escaping joined
/// texts joins their escapes.
pub proof fn lemma_escape_keeps_plain_text(a: Seq<char>, b: Seq<char>, c: char)
    ensures
        json_plain(c) ==> escape_text(seq![c]) == seq![c],
        !json_plain(c) ==> escape_text(seq![c]).len() >= 2 && escape_text(seq![c])[0] == '\\',
        (forall|i: int| 0 <= i < a.len() ==> json_plain(#[trigger] a[i])) ==> escape_text(a) == a,
        escape_text(a + b) == escape_text(a) + escape_text(b),
{
    lemma_escape_concat(a, b);
    let one = seq![c];
    assert(one.drop_last() =~= Seq::<char>::empty());
    assert(one.last() == c);
    assert(escape_text(Seq::<char>::empty()) =~= Seq::<char>::empty());
    assert(escape_text(one) == escape_text(one.drop_last()) + escape_char(one.last()));
    assert(escape_text(one) =~= escape_char(c));
    if forall|i: int| 0 <= i < a.len() ==> json_plain(#[trigger] a[i]) {
        lemma_plain_text_unchanged(a);
    }
}

proof fn lemma_plain_text_unchanged(a: Seq<char>)
    requires
        forall|i: int| 0 <= i < a.len() ==> json_plain(#[trigger] a[i]),
    ensures
        escape_text(a) == a,
    decreases a.len(),
{
    if a.len() > 0 {
        let init = a.drop_last();
        assert forall|i: int| 0 <= i < init.len() implies json_plain(#[trigger] init[i]) by {
            assert(init[i] == a[i]);
        }
        lemma_plain_text_unchanged(init);
        assert(json_plain(a[a.len() - 1]));
        assert(escape_char(a.last()) == seq![a.last()]);
        assert(a =~= init.push(a.last()));
        assert(escape_text(a) =~= init + seq![a.last()]);
    }
}

/// Escape `s` for use inside a JSON string literal.
pub fn escape(s: &str) -> (out: String)
    ensures
        out@ == escape_text(s@),
{
    let mut out = String::new();
    let ghost text = s@;
    for c in it: s.chars()
        invariant
            text == s@,
            it.seq() == text,
            out@ == escape_text(text.take(it.index() as int)),
    {
        let ghost before = out@;
        let ghost done = text.take(it.index() as int);
        if c == '"' {
            out.append("\\\"");
        } else if c == '\\' {
            out.append("\\\\");
        } else if c == '\n' {
            out.append("\\n");
        } else if c == '\r' {
            out.append("\\r");
        } else if c == '\t' {
            out.append("\\t");
        } else if (c as u32) < 0x20 {
            out.append("\\u00");
            push_hex(&mut out, (c as u32) / 16);
            push_hex(&mut out, (c as u32) % 16);
        } else {
            push_char(&mut out, c);
        }
        proof {
            reveal_strlit("\\\"");
            reveal_strlit("\\\\");
            reveal_strlit("\\n");
            reveal_strlit("\\r");
            reveal_strlit("\\t");
            reveal_strlit("\\u00");
            assert(text.take(it.index() + 1).drop_last() =~= done);
            assert(out@ =~= before + escape_char(c));
        }
    }
    proof {
        assert(text.take(text.len() as int) =~= text);
    }
    out
}


/// Items joined by commas.
pub open spec fn join_text(parts: Seq<Seq<char>>) -> Seq<char>
    decreases parts.len(),
{
    if parts.len() == 0 {
        Seq::empty()
    } else if parts.len() == 1 {
        parts[0]
    } else {
        join_text(parts.drop_last()) + seq![','] + parts.last()
    }
}

/// A JSON array of already-rendered items.
pub open spec fn list_text(parts: Seq<Seq<char>>) -> Seq<char> {
    seq!['['] + join_text(parts) + seq![']']
}

/// Render each item with `f` and join them into a JSON array. `render` states
/// what `f` gives for an item.
fn list<T, F: Fn(&T) -> String>(items: &[T], f: F, Ghost(render): Ghost<spec_fn(T) -> Seq<char>>) -> (out: String)
    requires
        forall|i: int| 0 <= i < items@.len() ==> call_requires(f, (&items@[i],)),
        forall|x: T, r: String| call_ensures(f, (&x,), r) ==> r@ == render(x),
    ensures
        out@ == list_text(items@.map_values(render)),
{
    let mut out = String::new();
    push_char(&mut out, '[');
    let ghost parts = items@.map_values(render);
    let mut i: usize = 0;
    while i < items.len()
        invariant
            0 <= i <= items@.len(),
            parts == items@.map_values(render),
            forall|m: int| 0 <= m < items@.len() ==> call_requires(f, (&items@[m],)),
            forall|x: T, r: String| call_ensures(f, (&x,), r) ==> r@ == render(x),
            out@ == seq!['['] + join_text(parts.take(i as int)),
        decreases items@.len() - i,
    {
        let part = f(&items[i]);
        let ghost before = out@;
        if i > 0 {
            push_char(&mut out, ',');
        }
        out.append(part.as_str());
        proof {
            assert(parts.take(i + 1).drop_last() =~= parts.take(i as int));
            assert(parts.take(i + 1).last() == part@);
            if i == 0 {
                assert(join_text(parts.take(1)) == part@);
                assert(out@ =~= seq!['['] + join_text(parts.take(i + 1)));
            } else {
                assert(out@ =~= seq!['['] + join_text(parts.take(i + 1)));
            }
        }
        i = i + 1;
    }
    push_char(&mut out, ']');
    proof {
        assert(parts.take(items@.len() as int) =~= parts);
    }
    out
}

/// A bin number in decimal.
pub open spec fn bin_text(k: usize) -> Seq<char> {
    decimal_text(k as nat)
}

/// A JSON array of bin numbers.
fn bin_list(bins: &Vec<usize>) -> (out: String)
    ensures
        out@ == list_text(bins@.map_values(|k: usize| bin_text(k))),
{
    let render = |k: &usize| -> (r: String)
        ensures
            r@ == bin_text(*k),
    { decimal(*k as u64) };
    list(bins.as_slice(), render, Ghost(|k: usize| bin_text(k)))
}

/// The text of a string.
pub open spec fn string_text(s: String) -> Seq<char> {
    s@
}

/// A JSON array of already-rendered numbers.
fn number_list(values: &Vec<String>) -> (out: String)
    ensures
        out@ == list_text(values@.map_values(|s: String| string_text(s))),
{
    let render = |s: &String| -> (r: String)
        ensures
            r@ == string_text(*s),
    { s.clone() };
    list(values.as_slice(), render, Ghost(|s: String| string_text(s)))
}

/// One input as it appears in the artifact. Numbers arrive already rendered as
/// JSON number text.
pub struct ArtifactChannel {
    pub name: String,
    pub bins: Vec<usize>,
    pub frequencies_hz: Vec<String>,
    pub amplitudes: Vec<String>,
    pub phases_rad: Vec<String>,
    pub peak_limit: String,
    pub rpf: String,
    pub f_min_hz: String,
    pub f_max_hz: String,
    pub n_tones: usize,
}

/// The record-wide fields of the artifact. Numbers arrive already rendered.
pub struct ArtifactHeader {
    pub created_utc: String,
    pub sample_rate_hz: String,
    pub fundamental_hz: String,
    pub record_length_s: String,
    pub n_periods: usize,
    pub duration_s: String,
    pub n_samples: usize,
}

/// Rendered numbers, as a sequence of texts.
pub open spec fn texts(values: Seq<String>) -> Seq<Seq<char>> {
    values.map_values(|s: String| string_text(s))
}

/// The JSON object of one input.
pub open spec fn channel_text(c: ArtifactChannel) -> Seq<char> {
    "{\"name\":\""@ + escape_text(c.name@)
        + "\",\"bins\":"@ + list_text(c.bins@.map_values(|k: usize| bin_text(k)))
        + ",\"frequencies_hz\":"@ + list_text(texts(c.frequencies_hz@))
        + ",\"amplitudes\":"@ + list_text(texts(c.amplitudes@))
        + ",\"phases_rad\":"@ + list_text(texts(c.phases_rad@))
        + ",\"peak_limit\":"@ + c.peak_limit@
        + ",\"rpf\":"@ + c.rpf@
        + ",\"spec\":{\"f_min_hz\":"@ + c.f_min_hz@
        + ",\"f_max_hz\":"@ + c.f_max_hz@
        + ",\"n_tones\":"@ + decimal_text(c.n_tones as nat)
        + "}}"@
}

fn channel_json(c: &ArtifactChannel) -> (out: String)
    ensures
        out@ == channel_text(*c),
{
    let mut out = String::from_str("{\"name\":\"");
    out.append(escape(c.name.as_str()).as_str());
    out.append("\",\"bins\":");
    out.append(bin_list(&c.bins).as_str());
    out.append(",\"frequencies_hz\":");
    out.append(number_list(&c.frequencies_hz).as_str());
    out.append(",\"amplitudes\":");
    out.append(number_list(&c.amplitudes).as_str());
    out.append(",\"phases_rad\":");
    out.append(number_list(&c.phases_rad).as_str());
    out.append(",\"peak_limit\":");
    out.append(c.peak_limit.as_str());
    out.append(",\"rpf\":");
    out.append(c.rpf.as_str());
    out.append(",\"spec\":{\"f_min_hz\":");
    out.append(c.f_min_hz.as_str());
    out.append(",\"f_max_hz\":");
    out.append(c.f_max_hz.as_str());
    out.append(",\"n_tones\":");
    out.append(decimal(c.n_tones as u64).as_str());
    out.append("}}");
    out
}

/// The artifact before it is sealed: one JSON object, ending in `}`.
pub open spec fn body_text(h: ArtifactHeader, channels: Seq<ArtifactChannel>) -> Seq<char> {
    "{\"format\":\"persistex.excitation\",\"version\":1,\"created_utc\":\""@ + escape_text(h.created_utc@)
        + "\",\"sample_rate_hz\":"@ + h.sample_rate_hz@
        + ",\"fundamental_hz\":"@ + h.fundamental_hz@
        + ",\"record_length_s\":"@ + h.record_length_s@
        + ",\"n_periods\":"@ + decimal_text(h.n_periods as nat)
        + ",\"duration_s\":"@ + h.duration_s@
        + ",\"n_samples\":"@ + decimal_text(h.n_samples as nat)
        + ",\"channels\":"@ + list_text(channels.map_values(|c: ArtifactChannel| channel_text(c)))
        + "}"@
}

/// The sealed artifact: the body with a `sha256` field, holding the hex digest of
/// the body's UTF-8 bytes, inserted before its closing brace.
pub open spec fn sealed_text(body: Seq<char>) -> Seq<char> {
    body.drop_last() + ", \"sha256\": \""@ + hex_text(sha256(vstd::utf8::encode_utf8(body))) + "\"}"@
}

/// A space, a quote and an `s` start at `i`: the opening of the seal's key.
pub open spec fn seal_key_at(s: Seq<char>, i: int) -> bool {
    s[i] == ' ' && s[i + 1] == '"' && s[i + 2] == 's'
}

/// No space, quote and `s` follow each other anywhere in the text.
pub open spec fn no_seal_key(s: Seq<char>) -> bool {
    forall|i: int| 0 <= i && i + 2 < s.len() ==> !#[trigger] seal_key_at(s, i)
}

/// The text does not end in a space, nor in a space and a quote.
pub open spec fn ends_clear(s: Seq<char>) -> bool {
    s.len() == 0 || (s.last() != ' ' && !(s.len() >= 2 && s[s.len() - 2] == ' ' && s.last() == '"'))
}

/// The text does not start with an `s`, nor with a quote and an `s`.
pub open spec fn starts_clear(s: Seq<char>) -> bool {
    s.len() == 0 || (s[0] != 's' && !(s.len() >= 2 && s[0] == '"' && s[1] == 's'))
}

/// The text holds no quote.
pub open spec fn no_quote(s: Seq<char>) -> bool {
    forall|i: int| 0 <= i < s.len() ==> #[trigger] s[i] != '"'
}

/// Every rendered number holds no quote.
pub open spec fn plain_numbers(values: Seq<String>) -> bool {
    forall|j: int| 0 <= j < values.len() ==> no_quote(#[trigger] values[j]@)
}

/// The rendered numbers of a channel hold no quote.
pub open spec fn channel_numbers_plain(c: ArtifactChannel) -> bool {
    &&& plain_numbers(c.frequencies_hz@)
    &&& plain_numbers(c.amplitudes@)
    &&& plain_numbers(c.phases_rad@)
    &&& no_quote(c.peak_limit@)
    &&& no_quote(c.rpf@)
    &&& no_quote(c.f_min_hz@)
    &&& no_quote(c.f_max_hz@)
}

/// No rendered number of the artifact holds a quote, as no JSON number does.
pub open spec fn numbers_plain(h: ArtifactHeader, channels: Seq<ArtifactChannel>) -> bool {
    &&& no_quote(h.sample_rate_hz@)
    &&& no_quote(h.fundamental_hz@)
    &&& no_quote(h.record_length_s@)
    &&& no_quote(h.duration_s@)
    &&& forall|j: int| 0 <= j < channels.len() ==> channel_numbers_plain(#[trigger] channels[j])
}

/// The text that introduces the seal.
pub open spec fn seal_marker() -> Seq<char> {
    ", \"sha256\": \""@
}

/// Joining two key-free texts leaves no key where they meet, when the first ends
/// clear or the second starts clear.
proof fn lemma_no_seal_key_concat(a: Seq<char>, b: Seq<char>)
    requires
        no_seal_key(a),
        no_seal_key(b),
        ends_clear(a) || starts_clear(b),
    ensures
        no_seal_key(a + b),
        b.len() >= 2 && ends_clear(b) ==> ends_clear(a + b),
        b.len() >= 1 && b.last() != ' ' && b.last() != '"' ==> ends_clear(a + b),
{
    let s = a + b;
    assert forall|i: int| 0 <= i && i + 2 < s.len() implies !#[trigger] seal_key_at(s, i) by {
        if i + 2 < a.len() {
            assert(!seal_key_at(a, i));
        } else if i >= a.len() {
            assert(!seal_key_at(b, i - a.len()));
        }
    }
    if b.len() >= 1 {
        assert(s.last() == b.last());
    }
    if b.len() >= 2 {
        assert(s[s.len() - 2] == b[b.len() - 2]);
    }
}

/// A literal piece of the document: no spaces, and it starts clear.
proof fn lemma_literal_piece(s: Seq<char>)
    requires
        s.len() >= 1,
        forall|i: int| 0 <= i < s.len() ==> s[i] != ' ',
        starts_clear(s),
    ensures
        no_seal_key(s),
        ends_clear(s),
{
    assert forall|i: int| 0 <= i && i + 2 < s.len() implies !#[trigger] seal_key_at(s, i) by {
        assert(s[i] != ' ');
    }
}

/// A text without quotes holds no key.
proof fn lemma_plain_piece(s: Seq<char>)
    requires
        no_quote(s),
    ensures
        no_seal_key(s),
{
    assert forall|i: int| 0 <= i && i + 2 < s.len() implies !#[trigger] seal_key_at(s, i) by {
        assert(s[i + 1] != '"');
    }
}

/// Every quote of an escaped text follows a backslash.
pub open spec fn quotes_escaped(s: Seq<char>) -> bool {
    forall|i: int| 0 <= i < s.len() && #[trigger] s[i] == '"' ==> i > 0 && s[i - 1] == '\\'
}

proof fn lemma_escape_char_quotes(c: char)
    ensures
        quotes_escaped(escape_char(c)),
{
    let e = escape_char(c);
    if (c as u32) < 0x20 && c != '\n' && c != '\r' && c != '\t' {
        let v = c as u32;
        assert(hex_char((v / 16) as nat) != '"');
        assert(hex_char((v % 16) as nat) != '"');
    }
}

/// Escaped text never holds a key: its quotes follow backslashes.
proof fn lemma_escape_text_piece(s: Seq<char>)
    ensures
        quotes_escaped(escape_text(s)),
        no_seal_key(escape_text(s)),
    decreases s.len(),
{
    let t = escape_text(s);
    if s.len() > 0 {
        lemma_escape_text_piece(s.drop_last());
        lemma_escape_char_quotes(s.last());
        let a = escape_text(s.drop_last());
        let b = escape_char(s.last());
        assert(t == a + b);
        assert forall|i: int| 0 <= i < t.len() && #[trigger] t[i] == '"' implies i > 0 && t[i - 1] == '\\' by {
            if i < a.len() {
                assert(a[i] == '"');
            } else {
                assert(b[i - a.len()] == '"');
            }
        }
    }
    assert forall|i: int| 0 <= i && i + 2 < t.len() implies !#[trigger] seal_key_at(t, i) by {
        if t[i + 1] == '"' {
            assert(t[i] == '\\');
        }
    }
}

/// Joining quote-free items gives a quote-free array.
proof fn lemma_list_no_quote(parts: Seq<Seq<char>>)
    requires
        forall|j: int| 0 <= j < parts.len() ==> no_quote(#[trigger] parts[j]),
    ensures
        no_quote(join_text(parts)),
        no_quote(list_text(parts)),
    decreases parts.len(),
{
    let t = join_text(parts);
    if parts.len() >= 2 {
        lemma_list_no_quote(parts.drop_last());
        let a = join_text(parts.drop_last());
        let b = parts.last();
        assert(no_quote(b));
        assert forall|i: int| 0 <= i < t.len() implies #[trigger] t[i] != '"' by {
            if i < a.len() {
                assert(a[i] != '"');
            } else if i > a.len() {
                assert(b[i - a.len() - 1] != '"');
            }
        }
    } else if parts.len() == 1 {
        assert(no_quote(parts[0]));
    }
    let l = list_text(parts);
    assert forall|i: int| 0 <= i < l.len() implies #[trigger] l[i] != '"' by {
        if 1 <= i < l.len() - 1 {
            assert(l[i] == t[i - 1]);
        }
    }
}

/// An array of bins holds no key.
proof fn lemma_bin_list_piece(bins: Seq<usize>)
    ensures
        no_seal_key(list_text(bins.map_values(|k: usize| bin_text(k)))),
{
    let parts = bins.map_values(|k: usize| bin_text(k));
    assert forall|j: int| 0 <= j < parts.len() implies no_quote(#[trigger] parts[j]) by {
        lemma_decimal_text(bins[j] as nat);
        assert forall|i: int| 0 <= i < parts[j].len() implies #[trigger] parts[j][i] != '"' by {
            assert(is_digit(decimal_text(bins[j] as nat)[i]));
        }
    }
    lemma_list_no_quote(parts);
    lemma_plain_piece(list_text(parts));
}

/// An array of quote-free numbers holds no key.
proof fn lemma_number_list_piece(values: Seq<String>)
    requires
        plain_numbers(values),
    ensures
        no_seal_key(list_text(texts(values))),
{
    let parts = texts(values);
    assert forall|j: int| 0 <= j < parts.len() implies no_quote(#[trigger] parts[j]) by {
        assert(parts[j] == values[j]@);
    }
    lemma_list_no_quote(parts);
    lemma_plain_piece(list_text(parts));
}

/// A channel's object holds no key and is wrapped in braces.
#[verifier::spinoff_prover]
proof fn lemma_channel_piece(c: ArtifactChannel)
    requires
        channel_numbers_plain(c),
    ensures
        no_seal_key(channel_text(c)),
        channel_text(c).len() >= 2,
        channel_text(c)[0] == '{',
        channel_text(c).last() == '}',
{
    reveal_strlit("{\"name\":\"");
    lemma_literal_piece("{\"name\":\""@);
    let p0 = "{\"name\":\""@;
    lemma_escape_text_piece(c.name@);
    lemma_no_seal_key_concat(p0, escape_text(c.name@));
    let p1 = p0 + escape_text(c.name@);
    reveal_strlit("\",\"bins\":");
    lemma_literal_piece("\",\"bins\":"@);
    lemma_no_seal_key_concat(p1, "\",\"bins\":"@);
    let p2 = p1 + "\",\"bins\":"@;
    lemma_bin_list_piece(c.bins@);
    lemma_no_seal_key_concat(p2, list_text(c.bins@.map_values(|k: usize| bin_text(k))));
    let p3 = p2 + list_text(c.bins@.map_values(|k: usize| bin_text(k)));
    reveal_strlit(",\"frequencies_hz\":");
    lemma_literal_piece(",\"frequencies_hz\":"@);
    lemma_no_seal_key_concat(p3, ",\"frequencies_hz\":"@);
    let p4 = p3 + ",\"frequencies_hz\":"@;
    lemma_number_list_piece(c.frequencies_hz@);
    lemma_no_seal_key_concat(p4, list_text(texts(c.frequencies_hz@)));
    let p5 = p4 + list_text(texts(c.frequencies_hz@));
    reveal_strlit(",\"amplitudes\":");
    lemma_literal_piece(",\"amplitudes\":"@);
    lemma_no_seal_key_concat(p5, ",\"amplitudes\":"@);
    let p6 = p5 + ",\"amplitudes\":"@;
    lemma_number_list_piece(c.amplitudes@);
    lemma_no_seal_key_concat(p6, list_text(texts(c.amplitudes@)));
    let p7 = p6 + list_text(texts(c.amplitudes@));
    reveal_strlit(",\"phases_rad\":");
    lemma_literal_piece(",\"phases_rad\":"@);
    lemma_no_seal_key_concat(p7, ",\"phases_rad\":"@);
    let p8 = p7 + ",\"phases_rad\":"@;
    lemma_number_list_piece(c.phases_rad@);
    lemma_no_seal_key_concat(p8, list_text(texts(c.phases_rad@)));
    let p9 = p8 + list_text(texts(c.phases_rad@));
    reveal_strlit(",\"peak_limit\":");
    lemma_literal_piece(",\"peak_limit\":"@);
    lemma_no_seal_key_concat(p9, ",\"peak_limit\":"@);
    let p10 = p9 + ",\"peak_limit\":"@;
    lemma_plain_piece(c.peak_limit@);
    lemma_no_seal_key_concat(p10, c.peak_limit@);
    let p11 = p10 + c.peak_limit@;
    reveal_strlit(",\"rpf\":");
    lemma_literal_piece(",\"rpf\":"@);
    lemma_no_seal_key_concat(p11, ",\"rpf\":"@);
    let p12 = p11 + ",\"rpf\":"@;
    lemma_plain_piece(c.rpf@);
    lemma_no_seal_key_concat(p12, c.rpf@);
    let p13 = p12 + c.rpf@;
    reveal_strlit(",\"spec\":{\"f_min_hz\":");
    lemma_literal_piece(",\"spec\":{\"f_min_hz\":"@);
    lemma_no_seal_key_concat(p13, ",\"spec\":{\"f_min_hz\":"@);
    let p14 = p13 + ",\"spec\":{\"f_min_hz\":"@;
    lemma_plain_piece(c.f_min_hz@);
    lemma_no_seal_key_concat(p14, c.f_min_hz@);
    let p15 = p14 + c.f_min_hz@;
    reveal_strlit(",\"f_max_hz\":");
    lemma_literal_piece(",\"f_max_hz\":"@);
    lemma_no_seal_key_concat(p15, ",\"f_max_hz\":"@);
    let p16 = p15 + ",\"f_max_hz\":"@;
    lemma_plain_piece(c.f_max_hz@);
    lemma_no_seal_key_concat(p16, c.f_max_hz@);
    let p17 = p16 + c.f_max_hz@;
    reveal_strlit(",\"n_tones\":");
    lemma_literal_piece(",\"n_tones\":"@);
    lemma_no_seal_key_concat(p17, ",\"n_tones\":"@);
    let p18 = p17 + ",\"n_tones\":"@;
    lemma_decimal_text(c.n_tones as nat);
    lemma_plain_piece(decimal_text(c.n_tones as nat));
    lemma_no_seal_key_concat(p18, decimal_text(c.n_tones as nat));
    let p19 = p18 + decimal_text(c.n_tones as nat);
    reveal_strlit("}}");
    lemma_literal_piece("}}"@);
    lemma_no_seal_key_concat(p19, "}}"@);
    let p20 = p19 + "}}"@;
    assert(p20 == channel_text(c));

    assert(p0[0] == '{');
    assert(p20.last() == '}');
    assert(p20[0] == p0[0]);
}

/// Joining brace-wrapped key-free items leaves no key.
proof fn lemma_object_join(parts: Seq<Seq<char>>)
    requires
        forall|j: int| 0 <= j < parts.len() ==> {
            &&& no_seal_key(#[trigger] parts[j])
            &&& parts[j].len() >= 2
            &&& parts[j][0] == '{'
            &&& parts[j].last() == '}'
        },
    ensures
        no_seal_key(join_text(parts)),
        ends_clear(join_text(parts)),
    decreases parts.len(),
{
    if parts.len() >= 2 {
        lemma_object_join(parts.drop_last());
        let a = join_text(parts.drop_last());
        let b = parts.last();
        assert(no_seal_key(b) && b.len() >= 2 && b[0] == '{' && b.last() == '}');
        assert(no_seal_key(seq![',']));
        lemma_no_seal_key_concat(a, seq![',']);
        lemma_no_seal_key_concat(a + seq![','], b);
        assert(join_text(parts) == a + seq![','] + b);
    } else if parts.len() == 1 {
        assert(no_seal_key(parts[0]) && parts[0].last() == '}');
    }
}

/// The array of channel objects holds no key.
proof fn lemma_channel_list_piece(channels: Seq<ArtifactChannel>)
    requires
        forall|j: int| 0 <= j < channels.len() ==> channel_numbers_plain(#[trigger] channels[j]),
    ensures
        no_seal_key(list_text(channels.map_values(|c: ArtifactChannel| channel_text(c)))),
{
    let parts = channels.map_values(|c: ArtifactChannel| channel_text(c));
    assert forall|j: int| 0 <= j < parts.len() implies {
        &&& no_seal_key(#[trigger] parts[j])
        &&& parts[j].len() >= 2
        &&& parts[j][0] == '{'
        &&& parts[j].last() == '}'
    } by {
        lemma_channel_piece(channels[j]);
    }
    lemma_object_join(parts);
    let j = join_text(parts);
    assert(no_seal_key(seq!['[']) && no_seal_key(seq![']']));
    lemma_no_seal_key_concat(seq!['['], j);
    lemma_no_seal_key_concat(seq!['['] + j, seq![']']);
    assert(list_text(parts) == seq!['['] + j + seq![']']);
}

/// The body holds no key and ends in its closing brace.
#[verifier::spinoff_prover]
proof fn lemma_body_piece(h: ArtifactHeader, channels: Seq<ArtifactChannel>)
    requires
        numbers_plain(h, channels),
    ensures
        no_seal_key(body_text(h, channels)),
        body_text(h, channels).last() == '}',
{
    reveal_strlit("{\"format\":\"persistex.excitation\",\"version\":1,\"created_utc\":\"");
    lemma_literal_piece("{\"format\":\"persistex.excitation\",\"version\":1,\"created_utc\":\""@);
    let p0 = "{\"format\":\"persistex.excitation\",\"version\":1,\"created_utc\":\""@;
    lemma_escape_text_piece(h.created_utc@);
    lemma_no_seal_key_concat(p0, escape_text(h.created_utc@));
    let p1 = p0 + escape_text(h.created_utc@);
    reveal_strlit("\",\"sample_rate_hz\":");
    lemma_literal_piece("\",\"sample_rate_hz\":"@);
    lemma_no_seal_key_concat(p1, "\",\"sample_rate_hz\":"@);
    let p2 = p1 + "\",\"sample_rate_hz\":"@;
    lemma_plain_piece(h.sample_rate_hz@);
    lemma_no_seal_key_concat(p2, h.sample_rate_hz@);
    let p3 = p2 + h.sample_rate_hz@;
    reveal_strlit(",\"fundamental_hz\":");
    lemma_literal_piece(",\"fundamental_hz\":"@);
    lemma_no_seal_key_concat(p3, ",\"fundamental_hz\":"@);
    let p4 = p3 + ",\"fundamental_hz\":"@;
    lemma_plain_piece(h.fundamental_hz@);
    lemma_no_seal_key_concat(p4, h.fundamental_hz@);
    let p5 = p4 + h.fundamental_hz@;
    reveal_strlit(",\"record_length_s\":");
    lemma_literal_piece(",\"record_length_s\":"@);
    lemma_no_seal_key_concat(p5, ",\"record_length_s\":"@);
    let p6 = p5 + ",\"record_length_s\":"@;
    lemma_plain_piece(h.record_length_s@);
    lemma_no_seal_key_concat(p6, h.record_length_s@);
    let p7 = p6 + h.record_length_s@;
    reveal_strlit(",\"n_periods\":");
    lemma_literal_piece(",\"n_periods\":"@);
    lemma_no_seal_key_concat(p7, ",\"n_periods\":"@);
    let p8 = p7 + ",\"n_periods\":"@;
    lemma_decimal_text(h.n_periods as nat);
    lemma_plain_piece(decimal_text(h.n_periods as nat));
    lemma_no_seal_key_concat(p8, decimal_text(h.n_periods as nat));
    let p9 = p8 + decimal_text(h.n_periods as nat);
    reveal_strlit(",\"duration_s\":");
    lemma_literal_piece(",\"duration_s\":"@);
    lemma_no_seal_key_concat(p9, ",\"duration_s\":"@);
    let p10 = p9 + ",\"duration_s\":"@;
    lemma_plain_piece(h.duration_s@);
    lemma_no_seal_key_concat(p10, h.duration_s@);
    let p11 = p10 + h.duration_s@;
    reveal_strlit(",\"n_samples\":");
    lemma_literal_piece(",\"n_samples\":"@);
    lemma_no_seal_key_concat(p11, ",\"n_samples\":"@);
    let p12 = p11 + ",\"n_samples\":"@;
    lemma_decimal_text(h.n_samples as nat);
    lemma_plain_piece(decimal_text(h.n_samples as nat));
    lemma_no_seal_key_concat(p12, decimal_text(h.n_samples as nat));
    let p13 = p12 + decimal_text(h.n_samples as nat);
    reveal_strlit(",\"channels\":");
    lemma_literal_piece(",\"channels\":"@);
    lemma_no_seal_key_concat(p13, ",\"channels\":"@);
    let p14 = p13 + ",\"channels\":"@;
    lemma_channel_list_piece(channels);
    lemma_no_seal_key_concat(p14, list_text(channels.map_values(|c: ArtifactChannel| channel_text(c))));
    let p15 = p14 + list_text(channels.map_values(|c: ArtifactChannel| channel_text(c)));
    reveal_strlit("}");
    lemma_literal_piece("}"@);
    lemma_no_seal_key_concat(p15, "}"@);
    let p16 = p15 + "}"@;
    assert(p16 == body_text(h, channels));

    assert(p16.last() == '}');
}

/// Hexadecimal text holds no comma.
proof fn lemma_hex_text_no_comma(bytes: Seq<u8>)
    ensures
        forall|i: int| 0 <= i < hex_text(bytes).len() ==> #[trigger] hex_text(bytes)[i] != ',',
    decreases bytes.len(),
{
    if bytes.len() > 0 {
        lemma_hex_text_no_comma(bytes.drop_last());
        let a = hex_text(bytes.drop_last());
        let hi = crate::sha256::hex_digit((bytes.last() / 16) as nat);
        let lo = crate::sha256::hex_digit((bytes.last() % 16) as nat);
        assert(hi != ',' && lo != ',');
        let t = hex_text(bytes);
        assert(t == a + seq![hi, lo]);
        assert forall|i: int| 0 <= i < t.len() implies #[trigger] t[i] != ',' by {
            if i < a.len() {
                assert(a[i] != ',');
            }
        }
    }
}

/// The seal of `doc` can be found and checked against `body`: the text
/// `, "sha256": "` occurs exactly once, where the body's closing brace stood;
/// before it, with that brace put back, is the body; after it, up to the final
/// quote and brace, is the hex SHA-256 of the body's UTF-8 bytes.
pub open spec fn seal_checks_out(doc: Seq<char>, body: Seq<char>) -> bool {
    &&& forall|k: int| 0 <= k && k + 13 <= doc.len()
        ==> (#[trigger] doc.subrange(k, k + 13) == seal_marker() <==> k == body.len() - 1)
    &&& doc.subrange(0, body.len() - 1) + seq!['}'] == body
    &&& doc.subrange(body.len() + 12 as int, doc.len() - 2) == hex_text(sha256(vstd::utf8::encode_utf8(body)))
    &&& doc.subrange(doc.len() - 2, doc.len() as int) == seq!['"', '}']
}

/// In the sealed form of a key-free body that ends in its closing brace, the
/// seal's text occurs once, where the brace stood.
proof fn lemma_seal_in(body: Seq<char>)
    requires
        no_seal_key(body),
        body.len() >= 1,
        body.last() == '}',
    ensures
        seal_checks_out(sealed_text(body), body),
{
    let doc = sealed_text(body);
    let bp = body.drop_last();
    let m = seal_marker();
    reveal_strlit(", \"sha256\": \"");
    reveal_strlit("\"}");
    let hx = hex_text(sha256(vstd::utf8::encode_utf8(body)));
    lemma_hex_text_no_comma(sha256(vstd::utf8::encode_utf8(body)));
    assert(m.len() == 13);
    assert(doc == bp + m + hx + "\"}"@);
    let at: int = bp.len() as int;
    assert forall|k: int| 0 <= k && k + 13 <= doc.len()
        implies (#[trigger] doc.subrange(k, k + 13) == seal_marker() <==> k == body.len() - 1) by {
        if k == at {
            assert(doc.subrange(k, k + 13) =~= m);
        } else if doc.subrange(k, k + 13) == m {
            assert(doc.subrange(k, k + 13)[0] == m[0]);
            assert(doc[k] == ',');
            if k < at {
                if k + 3 < at {
                    assert(doc.subrange(k, k + 13)[1] == m[1]);
                    assert(doc.subrange(k, k + 13)[2] == m[2]);
                    assert(doc.subrange(k, k + 13)[3] == m[3]);
                    assert(body[k + 1] == doc[k + 1] && body[k + 2] == doc[k + 2] && body[k + 3] == doc[k + 3]);
                    assert(seal_key_at(body, k + 1));
                } else {
                    let s = at - k;
                    assert(doc.subrange(k, k + 13)[s] == m[s]);
                    assert(doc[at] == m[0]);
                }
            } else if k < at + 13 {
                assert(doc[k] == m[k - at]);
            } else if k < at + 13 + hx.len() {
                assert(doc[k] == hx[k - at - 13]);
            } else {
                assert(doc[k] == "\"}"@[k - at - 13 - hx.len()]);
            }
        }
    }
    assert(doc.subrange(0, at) + seq!['}'] =~= body);
    assert(doc.subrange(body.len() + 12 as int, doc.len() - 2) =~= hx);
    assert(doc.subrange(doc.len() - 2, doc.len() as int) =~= seq!['"', '}']);
}


/// The seal can be found and checked: whenever no rendered number holds a quote,
/// the text `, "sha256": "` occurs in the document exactly once, where the body's
/// closing brace stood. Before it, with that brace put back, is the body; after
/// it, up to the closing quote and brace, is the hex SHA-256 of the body.
pub proof fn lemma_seal_is_found(h: ArtifactHeader, channels: Seq<ArtifactChannel>)
    requires
        numbers_plain(h, channels),
    ensures
        seal_checks_out(sealed_text(body_text(h, channels)), body_text(h, channels)),
{
    lemma_body_piece(h, channels);
    lemma_seal_in(body_text(h, channels));
}

/// Build the artifact JSON from rendered header fields and channels, and seal it
/// with the SHA-256 of the document.
pub fn artifact_document(header: &ArtifactHeader, channels: &Vec<ArtifactChannel>) -> (doc: String)
    requires
        vstd::utf8::encode_utf8(body_text(*header, channels@)).len() <= usize::MAX - 128,
    ensures
        doc@ == sealed_text(body_text(*header, channels@)),
        numbers_plain(*header, channels@) ==> seal_checks_out(doc@, body_text(*header, channels@)),
{
    let mut body = String::from_str("{\"format\":\"persistex.excitation\",\"version\":1,\"created_utc\":\"");
    body.append(escape(header.created_utc.as_str()).as_str());
    body.append("\",\"sample_rate_hz\":");
    body.append(header.sample_rate_hz.as_str());
    body.append(",\"fundamental_hz\":");
    body.append(header.fundamental_hz.as_str());
    body.append(",\"record_length_s\":");
    body.append(header.record_length_s.as_str());
    body.append(",\"n_periods\":");
    body.append(decimal(header.n_periods as u64).as_str());
    body.append(",\"duration_s\":");
    body.append(header.duration_s.as_str());
    body.append(",\"n_samples\":");
    body.append(decimal(header.n_samples as u64).as_str());
    body.append(",\"channels\":");
    let render = |c: &ArtifactChannel| -> (r: String)
        ensures
            r@ == channel_text(*c),
    { channel_json(c) };
    body.append(list(channels.as_slice(), render, Ghost(|c: ArtifactChannel| channel_text(c))).as_str());
    let ghost open_body = body@;
    let mut doc = body.clone();
    body.append("}");
    proof {
        assert(body@ == body_text(*header, channels@));
        reveal_strlit("}");
        assert(body@.drop_last() =~= open_body);
    }
    let digest = hex(body.as_str().as_bytes());
    doc.append(", \"sha256\": \"");
    doc.append(digest.as_str());
    doc.append("\"}");
    proof {
        if numbers_plain(*header, channels@) {
            lemma_seal_is_found(*header, channels@);
        }
    }
    doc
}


/// `v` in decimal, at least `width` characters wide, zero-padded after the sign
/// (the `{:0width}` format).
pub open spec fn zero_padded(v: int, width: nat) -> Seq<char> {
    let digits = decimal_text((if v < 0 { -v } else { v }) as nat);
    let sign: Seq<char> = if v < 0 { seq!['-'] } else { Seq::empty() };
    let fill = width - sign.len() - digits.len();
    sign + Seq::new((if fill > 0 { fill } else { 0 }) as nat, |k: int| '0') + digits
}

fn zero_pad(v: i64, width: usize) -> (s: String)
    requires
        v > i64::MIN,
    ensures
        s@ == zero_padded(v as int, width as nat),
{
    let magnitude: u64 = if v < 0 { (-v) as u64 } else { v as u64 };
    let digits = decimal(magnitude);
    let mut s = String::new();
    let mut used: usize = 0;
    if v < 0 {
        push_char(&mut s, '-');
        used = 1;
    }
    let ghost sign = s@;
    let total = (used as u64).saturating_add(digits.unicode_len() as u64);
    let fill: u64 = if (width as u64) > total { width as u64 - total } else { 0 };
    let mut k: u64 = 0;
    while k < fill
        invariant
            0 <= k <= fill,
            s@ == sign + Seq::new(k as nat, |i: int| '0'),
        decreases fill - k,
    {
        push_char(&mut s, '0');
        proof {
            assert(sign + Seq::new((k + 1) as nat, |i: int| '0') =~= (sign + Seq::new(k as nat, |i: int| '0')).push('0'));
        }
        k = k + 1;
    }
    s.append(digits.as_str());
    proof {
        assert(s@ =~= zero_padded(v as int, width as nat));
    }
    s
}

/// The ISO-8601 UTC timestamp `secs` seconds after the Unix epoch, to the second:
/// `YYYY-MM-DDTHH:MM:SSZ`.
pub open spec fn utc_text(secs: int) -> Seq<char> {
    let days = secs / 86_400;
    let rem = secs % 86_400;
    let date = calendar_date(days);
    zero_padded(date.0, 4) + seq!['-'] + zero_padded(date.1, 2) + seq!['-'] + zero_padded(date.2, 2)
        + seq!['T'] + zero_padded(rem / 3600, 2) + seq![':'] + zero_padded((rem % 3600) / 60, 2)
        + seq![':'] + zero_padded(rem % 60, 2) + seq!['Z']
}

/// A decimal digit character.
pub open spec fn is_digit(c: char) -> bool {
    48 <= (c as u32) <= 57
}

/// The value of a run of decimal digits, most significant first.
pub open spec fn digits_value(s: Seq<char>) -> int
    decreases s.len(),
{
    if s.len() == 0 {
        0
    } else {
        10 * digits_value(s.drop_last()) + ((s.last() as u32) as int - 48)
    }
}

/// The text has the shape `YYYY-MM-DDTHH:MM:SSZ`.
pub open spec fn utc_shaped(t: Seq<char>) -> bool {
    &&& t.len() == 20
    &&& t[4] == '-' && t[7] == '-' && t[10] == 'T' && t[13] == ':' && t[16] == ':' && t[19] == 'Z'
    &&& forall|i: int| 0 <= i < 20 && i != 4 && i != 7 && i != 10 && i != 13 && i != 16 && i != 19
        ==> is_digit(#[trigger] t[i])
}

/// The fields of a `YYYY-MM-DDTHH:MM:SSZ` text: year, month, day, hour, minute,
/// second.
pub open spec fn utc_fields(t: Seq<char>) -> (int, int, int, int, int, int) {
    (
        digits_value(t.subrange(0, 4)),
        digits_value(t.subrange(5, 7)),
        digits_value(t.subrange(8, 10)),
        digits_value(t.subrange(11, 13)),
        digits_value(t.subrange(14, 16)),
        digits_value(t.subrange(17, 19)),
    )
}

/// Reading a `YYYY-MM-DDTHH:MM:SSZ` text back as seconds after the Unix epoch.
pub open spec fn read_utc(t: Seq<char>) -> int {
    let f = utc_fields(t);
    days_from_civil(f.0, f.1, f.2) * 86_400 + f.3 * 3600 + f.4 * 60 + f.5
}

/// The digits of `n` are digits and read back as `n`; four at most below 10000,
/// two at most below 100.
proof fn lemma_decimal_text(n: nat)
    ensures
        forall|i: int| 0 <= i < decimal_text(n).len() ==> is_digit(#[trigger] decimal_text(n)[i]),
        digits_value(decimal_text(n)) == n,
        decimal_text(n).len() >= 1,
        n < 100 ==> decimal_text(n).len() <= 2,
        n < 10000 ==> decimal_text(n).len() <= 4,
    decreases n,
{
    let t = decimal_text(n);
    assert((digit_char(n % 10) as u32) == 48 + n % 10);
    assert(digits_value(t) == 10 * digits_value(t.drop_last()) + ((t.last() as u32) as int - 48));
    if n < 10 {
        assert(t.drop_last() =~= Seq::<char>::empty());
        assert(digits_value(Seq::<char>::empty()) == 0);
        assert(t.last() == digit_char(n));
        assert(n % 10 == n);
    } else {
        lemma_decimal_text(n / 10);
        assert(t.drop_last() =~= decimal_text(n / 10));
        assert(t.last() == digit_char(n % 10));
        assert forall|i: int| 0 <= i < t.len() implies is_digit(#[trigger] t[i]) by {
            if i < t.len() - 1 {
                assert(t[i] == decimal_text(n / 10)[i]);
            }
        }
        if n < 10000 {
            lemma_decimal_text(n / 100);
        }
    }
}

/// Leading zeros do not change the value of a run of digits.
proof fn lemma_leading_zeros(k: nat, d: Seq<char>)
    ensures
        digits_value(Seq::new(k, |i: int| '0') + d) == digits_value(d),
    decreases d.len(), k,
{
    let z = Seq::new(k, |i: int| '0');
    if d.len() > 0 {
        lemma_leading_zeros(k, d.drop_last());
        assert((z + d).drop_last() =~= z + d.drop_last());
        assert((z + d).last() == d.last());
    } else {
        assert(z + d =~= z);
        if k > 0 {
            lemma_leading_zeros((k - 1) as nat, d);
            assert(z.drop_last() =~= Seq::new((k - 1) as nat, |i: int| '0') + d);
            assert(z.last() == '0');
        }
    }
}

/// Zero-padding a small non-negative number gives exactly `width` digits that
/// read back as the number.
proof fn lemma_zero_padded(v: int, width: nat)
    requires
        0 <= v,
        decimal_text(v as nat).len() <= width,
    ensures
        zero_padded(v, width).len() == width,
        forall|i: int| 0 <= i < width ==> is_digit(#[trigger] zero_padded(v, width)[i]),
        digits_value(zero_padded(v, width)) == v,
{
    let digits = decimal_text(v as nat);
    lemma_decimal_text(v as nat);
    let fill = (width - digits.len()) as nat;
    let z = Seq::new(fill, |i: int| '0');
    assert(zero_padded(v, width) =~= z + digits);
    lemma_leading_zeros(fill, digits);
    assert forall|i: int| 0 <= i < width implies is_digit(#[trigger] zero_padded(v, width)[i]) by {
        if i >= fill {
            assert(zero_padded(v, width)[i] == digits[i - fill]);
        }
    }
}

/// Every second from the epoch up to the end of year 9999 formats as a
/// 20-character `YYYY-MM-DDTHH:MM:SSZ` text of a real date and time, and reading
/// the text back gives exactly that second.
pub proof fn lemma_utc_text_reads_back(secs: int)
    requires
        0 <= secs < 253_402_300_800,
    ensures
        utc_shaped(utc_text(secs)),
        valid_date(utc_fields(utc_text(secs)).0, utc_fields(utc_text(secs)).1, utc_fields(utc_text(secs)).2),
        utc_fields(utc_text(secs)).3 < 24,
        utc_fields(utc_text(secs)).4 < 60,
        utc_fields(utc_text(secs)).5 < 60,
        read_utc(utc_text(secs)) == secs,
{
    let days = secs / 86_400;
    let rem = secs % 86_400;
    let date = calendar_date(days);
    crate::calendar::lemma_calendar_date(days);
    let (h, mi, sec) = (rem / 3600, (rem % 3600) / 60, rem % 60);
    lemma_decimal_text(date.0 as nat);
    lemma_decimal_text(date.1 as nat);
    lemma_decimal_text(date.2 as nat);
    lemma_decimal_text(h as nat);
    lemma_decimal_text(mi as nat);
    lemma_decimal_text(sec as nat);
    lemma_zero_padded(date.0, 4);
    lemma_zero_padded(date.1, 2);
    lemma_zero_padded(date.2, 2);
    lemma_zero_padded(h, 2);
    lemma_zero_padded(mi, 2);
    lemma_zero_padded(sec, 2);
    let ys = zero_padded(date.0, 4);
    let ms = zero_padded(date.1, 2);
    let ds = zero_padded(date.2, 2);
    let hs = zero_padded(h, 2);
    let mis = zero_padded(mi, 2);
    let ss = zero_padded(sec, 2);
    let t = utc_text(secs);
    assert(t == ys + seq!['-'] + ms + seq!['-'] + ds + seq!['T'] + hs + seq![':'] + mis + seq![':'] + ss + seq!['Z']);
    assert(t.len() == 20);
    assert(t.subrange(0, 4) =~= ys);
    assert(t.subrange(5, 7) =~= ms);
    assert(t.subrange(8, 10) =~= ds);
    assert(t.subrange(11, 13) =~= hs);
    assert(t.subrange(14, 16) =~= mis);
    assert(t.subrange(17, 19) =~= ss);
    assert forall|i: int| 0 <= i < 20 && i != 4 && i != 7 && i != 10 && i != 13 && i != 16 && i != 19
        implies is_digit(#[trigger] t[i]) by {
        if i < 4 {
            assert(t[i] == ys[i]);
        } else if i < 7 {
            assert(t[i] == ms[i - 5]);
        } else if i < 10 {
            assert(t[i] == ds[i - 8]);
        } else if i < 13 {
            assert(t[i] == hs[i - 11]);
        } else if i < 16 {
            assert(t[i] == mis[i - 14]);
        } else {
            assert(t[i] == ss[i - 17]);
        }
    }
    vstd::arithmetic::div_mod::lemma_fundamental_div_mod(secs, 86_400);
    vstd::arithmetic::div_mod::lemma_fundamental_div_mod(rem, 3600);
    vstd::arithmetic::div_mod::lemma_fundamental_div_mod(rem % 3600, 60);
    assert(days * 86_400 + rem == secs) by (nonlinear_arith)
        requires
            secs == 86_400 * (secs / 86_400) + secs % 86_400,
            days == secs / 86_400,
            rem == secs % 86_400;
}

/// Format a Unix timestamp as ISO-8601 UTC.
pub fn format_utc(secs: i64) -> (s: String)
    ensures
        s@ == utc_text(secs as int),
{
    let days: i64 = match secs.checked_div_euclid(86_400) {
        Some(q) => q,
        None => 0,
    };
    let rem: i64 = match secs.checked_rem_euclid(86_400) {
        Some(r) => r,
        None => 0,
    };
    let (y, m, d) = civil_from_days(days);
    let mut s = zero_pad(y, 4);
    push_char(&mut s, '-');
    s.append(zero_pad(m, 2).as_str());
    push_char(&mut s, '-');
    s.append(zero_pad(d, 2).as_str());
    push_char(&mut s, 'T');
    s.append(zero_pad(rem / 3600, 2).as_str());
    push_char(&mut s, ':');
    s.append(zero_pad((rem % 3600) / 60, 2).as_str());
    push_char(&mut s, ':');
    s.append(zero_pad(rem % 60, 2).as_str());
    push_char(&mut s, 'Z');
    s
}

#[verifier::external_type_specification]
#[verifier::external_body]
pub struct ExSystemTime(std::time::SystemTime);

/// `SystemTime::now`: the clock's current reading. Nothing is claimed of it.
#[verifier::external_body]
fn clock_now() -> std::time::SystemTime {
    std::time::SystemTime::now()
}

/// `SystemTime::duration_since(UNIX_EPOCH)`: the time elapsed since 1970-01-01
/// UTC, or `None` when the reading is earlier than that. Nothing is claimed of
/// the value, which depends on the clock.
#[verifier::external_body]
fn since_unix_epoch(t: &std::time::SystemTime) -> Option<core::time::Duration> {
    t.duration_since(std::time::UNIX_EPOCH).ok()
}

/// `Duration::as_secs`: the whole seconds of a duration. The duration is opaque
/// here, so nothing is claimed of the number.
#[verifier::external_body]
fn whole_seconds(d: &core::time::Duration) -> u64 {
    d.as_secs()
}

/// The second a clock reading stands for: the whole seconds since the Unix epoch
/// (as a signed count, the way the timestamp is formatted), or the epoch itself
/// when the clock read earlier than the epoch.
pub open spec fn reading_secs(reading: Option<u64>) -> int {
    match reading {
        Some(x) => (x as i64) as int,
        None => 0,
    }
}

/// The ISO-8601 UTC timestamp of a clock reading: `Some` whole seconds since the
/// Unix epoch, or `None` for a clock set before it, which reads as the epoch.
pub fn utc_from_reading(reading: Option<u64>) -> (s: String)
    ensures
        s@ == utc_text(reading_secs(reading)),
{
    let secs: i64 = match reading {
        Some(x) => x as i64,
        None => 0,
    };
    format_utc(secs)
}

/// Current UTC timestamp as ISO-8601. The clock is read once and its reading is
/// formatted by `utc_from_reading`; which reading it gives depends on the clock.
pub fn now_utc_iso() -> (s: String)
    ensures
        exists|reading: Option<u64>| s@ == utc_text(reading_secs(reading)),
{
    let now = clock_now();
    let reading: Option<u64> = match since_unix_epoch(&now) {
        Some(d) => Some(whole_seconds(&d)),
        None => None,
    };
    utc_from_reading(reading)
}

} // verus!
