//! RTP header extensions (RFC 8285), parsed into a partially redacted form.

use vstd::prelude::*;

verus! {

/// Parsed form of the extension(s) of an RTP packet.
///
/// See RFC 8285 for the definitions of [`OneByte`]/[`TwoByte`].
///
/// [`OneByte`]: Extension::OneByte
/// [`TwoByte`]: Extension::TwoByte
#[derive(Clone, Debug, PartialEq, Eq, Hash)]
pub enum Extension {
    /// Single-extension variant, containing header data and an optional body.
    Standard(TopExtension, Vec<u8>),
    /// Sub extensions using one-byte headers.
    ///
    /// This is parsed where [`TopExtension::info`] `== 0xBEDE`.
    OneByte(TopExtension, Vec<SubExtension>),
    /// Sub extensions using two-byte headers.
    ///
    /// This is parsed where [`TopExtension::info`] `>> 4 == 0x100`.
    TwoByte(TopExtension, Vec<SubExtension>),
}

/// RTP extension header as observed in all compatible packets.
///
/// The id and length here are as reported, and may not be valid.
/// Packet bodies are discarded if there is currently
/// no logic to properly anonymise them.
#[derive(Clone, Debug, PartialEq, Eq, Hash)]
pub struct TopExtension {
    /// Info (implementation-specific) identifier field of this header.
    pub info: u16,
    /// Reported length of the top-level extension, in bytes.
    pub length: usize,
}

/// RTP extension as observed in [`OneByte`] or [`TwoByte`].
///
/// In [`OneByte`], `id` and `length` are reduced to 4 bits each.
///
/// The id and length here are as reported, and may not be valid.
/// Packet bodies are discarded if there is currently
/// no logic to properly anonymise them.
///
/// [`OneByte`]: Extension::OneByte
/// [`TwoByte`]: Extension::TwoByte
#[derive(Clone, Debug, PartialEq, Eq, Hash)]
pub struct SubExtension {
    /// Extension type.
    pub id: u8,
    /// Reported length of this extension, in bytes.
    ///
    /// For [`OneByte`], this has already been adjusted from [0, 15] to [1, 16].
    ///
    /// [`OneByte`]: Extension::OneByte
    pub length: u8,
    /// Extension body, if available.
    pub body: Vec<u8>,
}

/// Mathematical form of a [`SubExtension`]: id, length and body.
pub type SubExtensionView = (u8, u8, Seq<u8>);

impl View for SubExtension {
    type V = SubExtensionView;

    open spec fn view(&self) -> SubExtensionView {
        (self.id, self.length, self.body@)
    }
}

/// Mathematical form of an [`Extension`].
pub enum ExtensionView {
    Standard(u16, usize, Seq<u8>),
    OneByte(u16, usize, Seq<SubExtensionView>),
    TwoByte(u16, usize, Seq<SubExtensionView>),
}

pub open spec fn subs_view(v: Seq<SubExtension>) -> Seq<SubExtensionView> {
    v.map_values(|s: SubExtension| s@)
}

impl View for Extension {
    type V = ExtensionView;

    open spec fn view(&self) -> ExtensionView {
        match self {
            Extension::Standard(t, b) => ExtensionView::Standard(t.info, t.length, b@),
            Extension::OneByte(t, s) => ExtensionView::OneByte(t.info, t.length, subs_view(s@)),
            Extension::TwoByte(t, s) => ExtensionView::TwoByte(t.info, t.length, subs_view(s@)),
        }
    }
}

/// The top-level extension IDs known to include no user-identifying data.
pub open spec fn safe_top(info: u16) -> bool {
    info == 0xBEDE
}

/// The nested extension IDs known to include no user-identifying data.
pub open spec fn safe_sub(id: u8) -> bool {
    id == 1 || id == 9
}

/// Whether a top-level extension ID is known to include no user-identifying data.
pub fn is_safe_top_extension(info: u16) -> (r: bool)
    ensures
        r == safe_top(info),
{
    info == 0xBEDE
}

/// Whether a nested extension ID is known to include no user-identifying data.
pub fn is_safe_sub_extension(id: u8) -> (r: bool)
    ensures
        r == safe_sub(id),
{
    id == 1 || id == 9
}

/// A big-endian 16-bit field at `at`.
pub open spec fn be16(b: Seq<u8>, at: int) -> int {
    b[at] * 256 + b[at + 1]
}

/// The sub-extension recorded for `id` and `length`, whose body would start at `at`.
pub open spec fn sub_model(p: Seq<u8>, at: int, id: u8, length: u8) -> SubExtensionView {
    (id, length, if safe_sub(id) { p.subrange(at, at + length) } else { Seq::empty() })
}

/// Whether a body that is kept would run past the end of `p`.
pub open spec fn body_overruns(p: Seq<u8>, at: int, id: u8, length: u8) -> bool {
    safe_sub(id) && at + length > p.len()
}

/// The one-byte-header sub-extensions of `p` from `cursor` on (RFC 8285, 4.2).
///
/// A zero byte is padding. An id of 15, or of 0 with a non-zero length,
/// is recorded and then ends the list. `None` where a kept body would run
/// past the end of `p`.
pub open spec fn one_byte_subs(p: Seq<u8>, cursor: int) -> Option<Seq<SubExtensionView>>
    decreases p.len() - cursor,
{
    if cursor < 0 || cursor >= p.len() {
        Some(Seq::empty())
    } else if p[cursor] == 0 {
        one_byte_subs(p, cursor + 1)
    } else {
        let id = (p[cursor] / 16) as u8;
        let length = (p[cursor] % 16 + 1) as u8;
        if body_overruns(p, cursor + 1, id, length) {
            None
        } else {
            let sub = sub_model(p, cursor + 1, id, length);
            if id == 15 || id == 0 || cursor + 1 + length >= p.len() {
                Some(seq![sub])
            } else {
                match one_byte_subs(p, cursor + 1 + length) {
                    Some(rest) => Some(seq![sub] + rest),
                    None => None,
                }
            }
        }
    }
}

/// The two-byte-header sub-extensions of `p` from `cursor` on (RFC 8285, 4.3).
///
/// A zero id is padding. `None` where a kept body would run past the end of `p`.
pub open spec fn two_byte_subs(p: Seq<u8>, cursor: int) -> Option<Seq<SubExtensionView>>
    decreases p.len() - cursor,
{
    if cursor < 0 || cursor + 1 >= p.len() {
        Some(Seq::empty())
    } else if p[cursor] == 0 {
        two_byte_subs(p, cursor + 1)
    } else {
        let id = p[cursor];
        let length = p[cursor + 1];
        if body_overruns(p, cursor + 2, id, length) {
            None
        } else if cursor + 2 + length >= p.len() {
            Some(seq![sub_model(p, cursor + 2, id, length)])
        } else {
            match two_byte_subs(p, cursor + 2 + length) {
                Some(rest) => Some(seq![sub_model(p, cursor + 2, id, length)] + rest),
                None => None,
            }
        }
    }
}

/// Prefixes `done` onto a parse result.
pub open spec fn prefixed(
    done: Seq<SubExtensionView>,
    rest: Option<Seq<SubExtensionView>>,
) -> Option<Seq<SubExtensionView>> {
    match rest {
        Some(r) => Some(done + r),
        None => None,
    }
}

/// Whether `info` announces two-byte sub-extension headers.
pub open spec fn is_two_byte_info(info: u16) -> bool {
    info / 16 == 0x100
}

/// The extension described by `data`, which starts at the extension header:
/// a 16-bit info field, a 16-bit length in 32-bit words, then the extension data.
///
/// `None` where the bytes are too few for the declared length.
pub open spec fn extension_of(data: Seq<u8>) -> Option<ExtensionView> {
    if data.len() < 4 {
        None
    } else {
        let info = be16(data, 0) as u16;
        let length = (4 * be16(data, 2)) as usize;
        if data.len() < 4 + length {
            None
        } else {
            let p = data.subrange(4, 4 + length);
            if info == 0xBEDE {
                match one_byte_subs(p, 0) {
                    Some(s) => Some(ExtensionView::OneByte(info, length, s)),
                    None => None,
                }
            } else if is_two_byte_info(info) {
                match two_byte_subs(p, 0) {
                    Some(s) => Some(ExtensionView::TwoByte(info, length, s)),
                    None => None,
                }
            } else {
                Some(
                    ExtensionView::Standard(
                        info,
                        length,
                        if safe_top(info) { p } else { Seq::empty() },
                    ),
                )
            }
        }
    }
}

/// Every body that a sub-extension list keeps is allow-listed and of the reported
/// length; every other body is empty.
pub open spec fn bodies_redacted(s: Seq<SubExtensionView>) -> bool {
    forall|i: int|
        0 <= i < s.len() ==> {
            &&& safe_sub(s[i].0) ==> s[i].2.len() == s[i].1
            &&& !safe_sub(s[i].0) ==> s[i].2.len() == 0
        }
}

proof fn lemma_one_byte_redacted(p: Seq<u8>, cursor: int)
    ensures
        one_byte_subs(p, cursor) matches Some(s) ==> bodies_redacted(s),
    decreases p.len() - cursor,
{
    if cursor < 0 || cursor >= p.len() {
    } else if p[cursor] == 0 {
        lemma_one_byte_redacted(p, cursor + 1);
    } else {
        let length = (p[cursor] % 16 + 1) as u8;
        if cursor + 1 + length < p.len() {
            lemma_one_byte_redacted(p, cursor + 1 + length);
        }
        if let Some(s) = one_byte_subs(p, cursor) {
            assert forall|i: int| 0 <= i < s.len() implies {
                &&& safe_sub(s[i].0) ==> s[i].2.len() == s[i].1
                &&& !safe_sub(s[i].0) ==> s[i].2.len() == 0
            } by {
                if i > 0 {
                    let rest = one_byte_subs(p, cursor + 1 + length).unwrap();
                    assert(s[i] == rest[i - 1]);
                }
            }
        }
    }
}

proof fn lemma_two_byte_redacted(p: Seq<u8>, cursor: int)
    ensures
        two_byte_subs(p, cursor) matches Some(s) ==> bodies_redacted(s),
    decreases p.len() - cursor,
{
    if cursor < 0 || cursor + 1 >= p.len() {
    } else if p[cursor] == 0 {
        lemma_two_byte_redacted(p, cursor + 1);
    } else {
        let length = p[cursor + 1];
        if cursor + 2 + length < p.len() {
            lemma_two_byte_redacted(p, cursor + 2 + length);
        }
        if let Some(s) = two_byte_subs(p, cursor) {
            assert forall|i: int| 0 <= i < s.len() implies {
                &&& safe_sub(s[i].0) ==> s[i].2.len() == s[i].1
                &&& !safe_sub(s[i].0) ==> s[i].2.len() == 0
            } by {
                if i > 0 {
                    let rest = two_byte_subs(p, cursor + 2 + length).unwrap();
                    assert(s[i] == rest[i - 1]);
                }
            }
        }
    }
}

/// In any extension that a header describes, a nested extension keeps its
/// body only where its ID is allow-listed, and then at its reported length;
/// every other body is empty.
pub proof fn lemma_extension_bodies_redacted(data: Seq<u8>)
    ensures
        extension_of(data) matches Some(ExtensionView::OneByte(_, _, s)) ==> bodies_redacted(s),
        extension_of(data) matches Some(ExtensionView::TwoByte(_, _, s)) ==> bodies_redacted(s),
{
    if data.len() >= 4 {
        let length = (4 * be16(data, 2)) as usize;
        if data.len() >= 4 + length {
            let p = data.subrange(4, 4 + length);
            lemma_one_byte_redacted(p, 0);
            lemma_two_byte_redacted(p, 0);
        }
    }
}

fn copy_range(data: &[u8], start: usize, end: usize) -> (r: Vec<u8>)
    requires
        start <= end <= data@.len(),
    ensures
        r@ == data@.subrange(start as int, end as int),
{
    let mut out: Vec<u8> = Vec::new();
    let mut i: usize = start;
    while i < end
        invariant
            start <= i <= end <= data@.len(),
            out@ == data@.subrange(start as int, i as int),
        decreases end - i,
    {
        out.push(data[i]);
        i += 1;
    }
    out
}

fn parse_one_byte(data: &[u8], start: usize, end: usize) -> (r: Option<Vec<SubExtension>>)
    requires
        start <= end <= data@.len(),
    ensures
        match r {
            Some(v) => one_byte_subs(data@.subrange(start as int, end as int), 0) == Some(
                subs_view(v@),
            ),
            None => one_byte_subs(data@.subrange(start as int, end as int), 0) is None,
        },
{
    let ghost p = data@.subrange(start as int, end as int);
    let mut out: Vec<SubExtension> = Vec::new();
    let mut cursor: usize = start;
    while cursor < end
        invariant
            start <= end <= data@.len(),
            p == data@.subrange(start as int, end as int),
            start <= cursor,
            one_byte_subs(p, 0) == prefixed(
                subs_view(out@),
                one_byte_subs(p, cursor - start),
            ),
        decreases end - cursor,
    {
        let ghost c = cursor - start;
        let b = data[cursor];
        cursor += 1;
        if b == 0 {
            assert(one_byte_subs(p, c) == one_byte_subs(p, c + 1));
            continue;
        }
        let id: u8 = b / 16;
        let length: u8 = b % 16 + 1;
        let keep = is_safe_sub_extension(id);
        if keep && end - cursor < length as usize {
            assert(body_overruns(p, c + 1, id, length));
            return None;
        }
        let body = if keep {
            copy_range(data, cursor, cursor + length as usize)
        } else {
            Vec::new()
        };
        let ghost old_out = out@;
        let sub = SubExtension { id, length, body };
        assert(sub@ == sub_model(p, c + 1, id, length));
        out.push(sub);
        assert(subs_view(out@) == subs_view(old_out).push(sub@));
        if id == 15 || id == 0 {
            assert(subs_view(out@) == subs_view(old_out) + seq![sub@]);
            return Some(out);
        }
        assert(subs_view(out@) == subs_view(old_out) + seq![sub@]);
        if end - cursor <= length as usize {
            return Some(out);
        }
        cursor += length as usize;
        assert(subs_view(old_out) + (seq![sub@] + one_byte_subs(p, c + 1 + length).unwrap())
            == subs_view(out@) + one_byte_subs(p, c + 1 + length).unwrap()) by {
            let rest = one_byte_subs(p, c + 1 + length).unwrap();
            assert(subs_view(old_out) + (seq![sub@] + rest) =~= (subs_view(old_out) + seq![sub@]) + rest);
        }
    }
    assert(subs_view(out@) + Seq::<SubExtensionView>::empty() == subs_view(out@));
    Some(out)
}

fn parse_two_byte(data: &[u8], start: usize, end: usize) -> (r: Option<Vec<SubExtension>>)
    requires
        start <= end <= data@.len(),
    ensures
        match r {
            Some(v) => two_byte_subs(data@.subrange(start as int, end as int), 0) == Some(
                subs_view(v@),
            ),
            None => two_byte_subs(data@.subrange(start as int, end as int), 0) is None,
        },
{
    let ghost p = data@.subrange(start as int, end as int);
    let mut out: Vec<SubExtension> = Vec::new();
    let mut cursor: usize = start;
    while cursor < end && end - cursor > 1
        invariant
            start <= end <= data@.len(),
            p == data@.subrange(start as int, end as int),
            start <= cursor,
            two_byte_subs(p, 0) == prefixed(
                subs_view(out@),
                two_byte_subs(p, cursor - start),
            ),
        decreases end - cursor,
    {
        let ghost c = cursor - start;
        let id = data[cursor];
        cursor += 1;
        if id == 0 {
            assert(two_byte_subs(p, c) == two_byte_subs(p, c + 1));
            continue;
        }
        let length = data[cursor];
        cursor += 1;
        let keep = is_safe_sub_extension(id);
        if keep && end - cursor < length as usize {
            assert(body_overruns(p, c + 2, id, length));
            return None;
        }
        let body = if keep {
            copy_range(data, cursor, cursor + length as usize)
        } else {
            Vec::new()
        };
        let ghost old_out = out@;
        let sub = SubExtension { id, length, body };
        assert(sub@ == sub_model(p, c + 2, id, length));
        out.push(sub);
        assert(subs_view(out@) == subs_view(old_out).push(sub@));
        assert(subs_view(out@) == subs_view(old_out) + seq![sub@]);
        if end - cursor <= length as usize {
            return Some(out);
        }
        cursor += length as usize;
        assert(prefixed(subs_view(old_out), two_byte_subs(p, c)) == prefixed(subs_view(out@), two_byte_subs(p, c + 2 + length))) by {
            if two_byte_subs(p, c + 2 + length) is Some {
                let rest = two_byte_subs(p, c + 2 + length).unwrap();
                assert(subs_view(old_out) + (seq![sub@] + rest) =~= (subs_view(old_out) + seq![sub@]) + rest);
            }
        }
    }
    assert(two_byte_subs(p, cursor - start) == Some(Seq::<SubExtensionView>::empty()));
    assert(subs_view(out@) + Seq::<SubExtensionView>::empty() == subs_view(out@));
    Some(out)
}

/// Parses the header extension that starts `data`.
///
/// Bodies of nested extensions are kept only for allow-listed IDs; every
/// other body is emptied while its reported length is kept. `None` where
/// `data` holds too few bytes for the length that the header declares.
pub fn parse_extension(data: &[u8]) -> (r: Option<Extension>)
    ensures
        match r {
            Some(e) => extension_of(data@) == Some(e@),
            None => extension_of(data@) is None,
        },
        r matches Some(Extension::OneByte(_, s)) ==> bodies_redacted(subs_view(s@)),
        r matches Some(Extension::TwoByte(_, s)) ==> bodies_redacted(subs_view(s@)),
{
    if data.len() < 4 {
        return None;
    }
    let info: u16 = (data[0] as u16) * 256 + data[1] as u16;
    let words: u16 = (data[2] as u16) * 256 + data[3] as u16;
    let length: usize = 4 * (words as usize);
    if data.len() - 4 < length {
        return None;
    }
    let top = TopExtension { info, length };
    let ghost p = data@.subrange(4, 4 + length as int);
    if info == 0xBEDE {
        proof { lemma_one_byte_redacted(p, 0); }
        match parse_one_byte(data, 4, 4 + length) {
            Some(s) => Some(Extension::OneByte(top, s)),
            None => None,
        }
    } else if info / 16 == 0x100 {
        proof { lemma_two_byte_redacted(p, 0); }
        match parse_two_byte(data, 4, 4 + length) {
            Some(s) => Some(Extension::TwoByte(top, s)),
            None => None,
        }
    } else if is_safe_top_extension(info) {
        Some(Extension::Standard(top, copy_range(data, 4, 4 + length)))
    } else {
        Some(Extension::Standard(top, Vec::new()))
    }
}

} // verus!
