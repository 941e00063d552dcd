//! The publish/subscribe pattern: one-to-many broadcast with
//! byte-prefix filtering, the filtering itself done by the transport.
//!
//! Publishing an envelope sends its encoded byte form as one frame;
//! `publish_raw` instead sends the bare topic bytes as a first frame
//! and opaque payload bytes as a second. A subscriber's filter set is
//! modelled here, together with the transport's byte-prefix match
//! rule, so the reach of each publishing path is a proved fact:
//! because an encoded envelope frame begins with `{` rather than the
//! bare topic, a topic-valued prefix filter matches only raw frames —
//! the two paths must not be silently unified.

use vstd::prelude::*;

use crate::message::MessageView;
use crate::message::spec_encode;

verus! {

/// Whether `p` is a byte prefix of `f`.
pub open spec fn is_prefix(p: Seq<u8>, f: Seq<u8>) -> bool {
    p.len() <= f.len() && p == f.subrange(0, p.len() as int)
}

/// The transport's match rule: a subscriber receives a frame exactly
/// when some registered prefix is a byte prefix of its first frame.
pub open spec fn accepts(filters: Seq<Seq<u8>>, frame: Seq<u8>) -> bool {
    exists|k: int| 0 <= k < filters.len() && is_prefix(#[trigger] filters[k], frame)
}

/// Remove the first occurrence of `x`, if any.
pub open spec fn remove_first(s: Seq<Seq<u8>>, x: Seq<u8>) -> Seq<Seq<u8>>
    decreases s.len(),
{
    if s.len() == 0 {
        s
    } else if s[0] == x {
        s.drop_first()
    } else {
        seq![s[0]] + remove_first(s.drop_first(), x)
    }
}

/// A subscriber's registered topic-prefix filters, in registration
/// order. A subscriber with no filters receives nothing; the empty
/// prefix matches everything.
pub struct FilterSet {
    prefixes: Vec<Vec<u8>>,
}

impl View for FilterSet {
    type V = Seq<Seq<u8>>;

    closed spec fn view(&self) -> Seq<Seq<u8>> {
        Seq::new(self.prefixes@.len(), |i: int| self.prefixes@[i]@)
    }
}

impl FilterSet {
    /// A fresh subscriber state: no filters, so nothing is received.
    pub fn new() -> (r: FilterSet)
        ensures
            r@ == Seq::<Seq<u8>>::empty(),
    {
        let r = FilterSet { prefixes: Vec::new() };
        proof {
            assert(r@ =~= Seq::<Seq<u8>>::empty());
        }
        r
    }

    /// Register one topic prefix, as its UTF-8 bytes.
    pub fn subscribe(&mut self, topic: &str)
        ensures
            final(self)@ == old(self)@.push(vstd::utf8::encode_utf8(topic@)),
    {
        let b = topic.as_bytes_vec();
        self.prefixes.push(b);
        proof {
            assert(self@ =~= old(self)@.push(vstd::utf8::encode_utf8(topic@)));
        }
    }

    /// Drop the first registered occurrence of one topic prefix.
    pub fn unsubscribe(&mut self, topic: &str)
        ensures
            final(self)@ == remove_first(old(self)@, vstd::utf8::encode_utf8(topic@)),
    {
        let needle = topic.as_bytes_vec();
        let n = self.prefixes.len();
        let mut i: usize = 0;
        while i < n
            invariant
                i <= n,
                n == self.prefixes@.len(),
                self == old(self),
                needle@ == vstd::utf8::encode_utf8(topic@),
                forall|k: int| 0 <= k < i ==> self@[k] != needle@,
            decreases n - i,
        {
            if eq_bytes(&self.prefixes[i], &needle) {
                self.prefixes.remove(i);
                proof {
                    assert(self@ =~= old(self)@.remove(i as int));
                    lemma_remove_first_at(old(self)@, needle@, i as int);
                }
                return ;
            }
            i = i + 1;
        }
        proof {
            lemma_remove_first_absent(self@, needle@);
        }
    }

    /// Whether a frame passes the registered filters, by the
    /// transport's byte-prefix match rule.
    pub fn matches(&self, frame: &[u8]) -> (r: bool)
        ensures
            r == accepts(self@, frame@),
    {
        let n = self.prefixes.len();
        let mut i: usize = 0;
        while i < n
            invariant
                i <= n,
                n == self.prefixes@.len(),
                forall|k: int| 0 <= k < i ==> !is_prefix(self@[k], frame@),
            decreases n - i,
        {
            if starts_with(frame, &self.prefixes[i]) {
                proof {
                    assert(is_prefix(self@[i as int], frame@));
                }
                return true;
            }
            i = i + 1;
        }
        false
    }
}

/// The first frame of a raw publish: the bare topic bytes, the form a
/// topic-prefix filter is matched against. The second frame is the
/// caller's opaque payload bytes, passed through unchanged.
pub fn raw_topic_frame(topic: &str) -> (r: Vec<u8>)
    ensures
        r@ == vstd::utf8::encode_utf8(topic@),
{
    topic.as_bytes_vec()
}

/// Whether two byte vectors hold the same bytes.
fn eq_bytes(a: &Vec<u8>, b: &Vec<u8>) -> (r: bool)
    ensures
        r == (a@ == b@),
{
    let na = a.len();
    if na != b.len() {
        return false;
    }
    let mut i: usize = 0;
    while i < na
        invariant
            i <= na,
            na == a@.len(),
            na == b@.len(),
            forall|k: int| 0 <= k < i ==> a@[k] == b@[k],
        decreases na - i,
    {
        if a[i] != b[i] {
            return false;
        }
        i = i + 1;
    }
    proof {
        assert(a@ =~= b@);
    }
    true
}

/// Whether `frame` starts with the bytes of `p`.
fn starts_with(frame: &[u8], p: &Vec<u8>) -> (r: bool)
    ensures
        r == is_prefix(p@, frame@),
{
    let np = p.len();
    if np > frame.len() {
        return false;
    }
    let mut i: usize = 0;
    while i < np
        invariant
            i <= np,
            np == p@.len(),
            np <= frame@.len(),
            forall|k: int| 0 <= k < i ==> p@[k] == frame@[k],
        decreases np - i,
    {
        if p[i] != frame[i] {
            proof {
                assert(frame@.subrange(0, np as int)[i as int] == frame@[i as int]);
            }
            return false;
        }
        i = i + 1;
    }
    proof {
        assert(p@ =~= frame@.subrange(0, np as int));
    }
    true
}

proof fn lemma_remove_first_at(s: Seq<Seq<u8>>, x: Seq<u8>, i: int)
    requires
        0 <= i < s.len(),
        s[i] == x,
        forall|k: int| 0 <= k < i ==> s[k] != x,
    ensures
        remove_first(s, x) == s.remove(i),
    decreases i,
{
    if i == 0 {
        assert(s.drop_first() =~= s.remove(0));
    } else {
        assert forall|k: int| 0 <= k < i - 1 implies s.drop_first()[k] != x by {
            assert(s.drop_first()[k] == s[k + 1]);
        }
        assert(s.drop_first()[i - 1] == s[i]);
        lemma_remove_first_at(s.drop_first(), x, i - 1);
        assert(seq![s[0]] + s.drop_first().remove(i - 1) =~= s.remove(i));
    }
}

proof fn lemma_remove_first_absent(s: Seq<Seq<u8>>, x: Seq<u8>)
    requires
        forall|k: int| 0 <= k < s.len() ==> s[k] != x,
    ensures
        remove_first(s, x) == s,
    decreases s.len(),
{
    if s.len() > 0 {
        assert forall|k: int| 0 <= k < s.drop_first().len() implies s.drop_first()[k] != x by {
            assert(s.drop_first()[k] == s[k + 1]);
        }
        lemma_remove_first_absent(s.drop_first(), x);
        assert(seq![s[0]] + s.drop_first() =~= s);
    }
}

// ---------------------------------------------------------------------------
// The filter asymmetry between the two publishing paths
// ---------------------------------------------------------------------------

/// UTF-8 encoding distributes over concatenation.
proof fn lemma_encode_utf8_concat(a: Seq<char>, b: Seq<char>)
    ensures
        vstd::utf8::encode_utf8(a + b) == vstd::utf8::encode_utf8(a) + vstd::utf8::encode_utf8(b),
    decreases a.len(),
{
    if a.len() == 0 {
        assert(a + b =~= b);
        assert(vstd::utf8::encode_utf8(a) =~= Seq::<u8>::empty());
        assert(vstd::utf8::encode_utf8(a) + vstd::utf8::encode_utf8(b) =~= vstd::utf8::encode_utf8(
            b,
        ));
    } else {
        assert((a + b)[0] == a[0]);
        assert((a + b).drop_first() =~= a.drop_first() + b);
        lemma_encode_utf8_concat(a.drop_first(), b);
        assert(vstd::utf8::encode_utf8(a + b) =~= vstd::utf8::encode_utf8(a)
            + vstd::utf8::encode_utf8(b));
    }
}

/// An encoded envelope frame is non-empty and begins with the byte of
/// `{`, never with a topic byte.
pub proof fn lemma_publish_frame_head(m: MessageView)
    ensures
        spec_encode(m).len() > 0,
        spec_encode(m)[0] == 0x7Bu8,
{
    let doc = crate::json::enc_value(crate::message::message_value(m));
    assert(doc[0] == '{');
    assert(doc.len() > 0);
    let c0 = seq![doc[0]];
    assert(c0 + doc.drop_first() =~= doc);
    lemma_encode_utf8_concat(c0, doc.drop_first());
    assert(vstd::utf8::encode_utf8(c0) =~= seq![0x7Bu8]) by {
        assert('{' as u32 == 0x7B);
        assert((0x7Bu32 & 0x7F) as u8 == 0x7Bu8) by (bit_vector);
        assert(vstd::utf8::encode_scalar(0x7B) =~= seq![0x7Bu8]);
        assert(c0.drop_first() =~= Seq::<char>::empty());
        assert(vstd::utf8::encode_utf8(c0.drop_first()) =~= Seq::<u8>::empty());
    }
}

/// The empty prefix matches every frame: a subscriber holding the
/// empty filter receives every `publish` and every `publish_raw`
/// frame sent after registration.
pub proof fn lemma_empty_filter_matches_all(filters: Seq<Seq<u8>>, frame: Seq<u8>)
    requires
        filters.contains(Seq::<u8>::empty()),
    ensures
        accepts(filters, frame),
{
    let k = choose|k: int| 0 <= k < filters.len() && filters[k] == Seq::<u8>::empty();
    assert(frame.subrange(0, 0) =~= Seq::<u8>::empty());
    assert(is_prefix(filters[k], frame));
}

/// A non-empty filter that does not begin with the byte of `{` — any
/// filter set from a topic string, in particular — matches no encoded
/// envelope frame: `publish` output is invisible to topic-prefix
/// subscribers, whatever the envelope's topic. (A filter that does
/// begin with that byte, such as `{` itself, is the one exception.)
pub proof fn lemma_publish_frame_not_matched(filters: Seq<Seq<u8>>, m: MessageView)
    requires
        forall|k: int|
            0 <= k < filters.len() ==> (#[trigger] filters[k]).len() > 0 && filters[k][0]
                != 0x7Bu8,
    ensures
        !accepts(filters, spec_encode(m)),
{
    let frame = spec_encode(m);
    lemma_publish_frame_head(m);
    assert forall|k: int| 0 <= k < filters.len() implies !is_prefix(
        #[trigger] filters[k],
        frame,
    ) by {
        if is_prefix(filters[k], frame) {
            assert(frame.subrange(0, filters[k].len() as int)[0] == frame[0]);
        }
    }
}

/// A raw frame is matched by a filter exactly when the raw topic bytes
/// begin with the filter's bytes: `publish_raw` output is received by
/// exactly the subscribers whose prefix the topic frame starts with.
pub proof fn lemma_raw_frame_matched_iff(filter: Seq<u8>, topic_frame: Seq<u8>)
    ensures
        accepts(seq![filter], topic_frame) <==> is_prefix(filter, topic_frame),
{
    if is_prefix(filter, topic_frame) {
        assert(seq![filter][0] == filter);
        assert(accepts(seq![filter], topic_frame));
    }
}

/// A topic that extends the subscribed prefix, character by character,
/// gives a raw frame that the subscription matches.
pub proof fn lemma_char_prefix_gives_byte_prefix(p: Seq<char>, t: Seq<char>)
    requires
        p.len() <= t.len(),
        t.subrange(0, p.len() as int) == p,
    ensures
        is_prefix(vstd::utf8::encode_utf8(p), vstd::utf8::encode_utf8(t)),
{
    let rest = t.subrange(p.len() as int, t.len() as int);
    assert(p + rest =~= t);
    lemma_encode_utf8_concat(p, rest);
    let ep = vstd::utf8::encode_utf8(p);
    let et = vstd::utf8::encode_utf8(t);
    assert(et == ep + vstd::utf8::encode_utf8(rest));
    assert(et.subrange(0, ep.len() as int) =~= ep);
}

/// A byte prefix between two UTF-8 encodings is a character prefix:
/// UTF-8 never lets one string's encoding begin another's without the
/// characters themselves agreeing.
proof fn lemma_byte_prefix_gives_char_prefix(p: Seq<char>, t: Seq<char>)
    requires
        is_prefix(vstd::utf8::encode_utf8(p), vstd::utf8::encode_utf8(t)),
    ensures
        p.len() <= t.len(),
        t.subrange(0, p.len() as int) == p,
    decreases p.len(),
{
    let ep = vstd::utf8::encode_utf8(p);
    let et = vstd::utf8::encode_utf8(t);
    if p.len() == 0 {
        assert(t.subrange(0, 0) =~= p);
    } else {
        vstd::utf8::encode_utf8_first_scalar(p);
        assert(ep == vstd::utf8::encode_scalar(p[0] as u32) + vstd::utf8::encode_utf8(
            p.drop_first(),
        ));
        assert(ep.len() > 0);
        assert(et.len() >= ep.len());
        if t.len() == 0 {
            assert(et =~= Seq::<u8>::empty());
            assert(false);
        }
        vstd::utf8::encode_utf8_first_scalar(t);
        assert(et == vstd::utf8::encode_scalar(t[0] as u32) + vstd::utf8::encode_utf8(
            t.drop_first(),
        ));
        assert forall|i: int| 0 <= i < ep.len() implies et[i] == ep[i] by {
            assert(et.subrange(0, ep.len() as int)[i] == et[i]);
        }
        let lp = vstd::utf8::length_of_first_scalar(ep);
        assert(lp == vstd::utf8::encode_scalar(p[0] as u32).len());
        assert(1 <= lp <= ep.len());
        assert(vstd::utf8::length_of_first_scalar(et) == lp);
        assert(vstd::utf8::decode_first_scalar(et) == vstd::utf8::decode_first_scalar(ep));
        assert(p[0] as u32 == t[0] as u32);
        vstd::utf8::char_u32_cast(p[0], p[0] as u32);
        vstd::utf8::char_u32_cast(t[0], t[0] as u32);
        assert(t[0] == p[0]);
        let ep2 = vstd::utf8::encode_utf8(p.drop_first());
        let et2 = vstd::utf8::encode_utf8(t.drop_first());
        assert(vstd::utf8::encode_scalar(t[0] as u32).len() == lp);
        assert(ep2 =~= ep.subrange(lp, ep.len() as int));
        assert(et2 =~= et.subrange(lp, et.len() as int));
        assert(ep2.len() <= et2.len());
        assert(ep2 =~= et2.subrange(0, ep2.len() as int)) by {
            assert forall|i: int| 0 <= i < ep2.len() implies et2.subrange(0, ep2.len() as int)[i]
                == ep2[i] by {
                assert(et2[i] == et[lp + i]);
                assert(ep2[i] == ep[lp + i]);
            }
        }
        lemma_byte_prefix_gives_char_prefix(p.drop_first(), t.drop_first());
        assert(t.subrange(0, p.len() as int) =~= p) by {
            assert forall|k: int| 0 <= k < p.len() implies t.subrange(0, p.len() as int)[k]
                == p[k] by {
                if k > 0 {
                    assert(t.drop_first().subrange(0, p.len() - 1)[k - 1] == p.drop_first()[k
                        - 1]);
                    assert(t.drop_first()[k - 1] == t[k]);
                }
            }
        }
    }
}

/// A raw frame built from `topic` passes a filter registered for
/// `prefix` exactly when the topic's characters begin with the
/// prefix's characters.
pub proof fn lemma_raw_topic_prefix_iff(prefix: Seq<char>, topic: Seq<char>)
    ensures
        is_prefix(vstd::utf8::encode_utf8(prefix), vstd::utf8::encode_utf8(topic)) <==> (
        prefix.len() <= topic.len() && topic.subrange(0, prefix.len() as int) == prefix),
{
    if is_prefix(vstd::utf8::encode_utf8(prefix), vstd::utf8::encode_utf8(topic)) {
        lemma_byte_prefix_gives_char_prefix(prefix, topic);
    }
    if prefix.len() <= topic.len() && topic.subrange(0, prefix.len() as int) == prefix {
        lemma_char_prefix_gives_byte_prefix(prefix, topic);
    }
}

} // verus!
