//! The container written out as text: `{(k1, v1), (k2, v2)}`.

use crate::list::SkipList;
use std::fmt::Display;
use vstd::prelude::*;
use vstd::string::to_string_from_display_ensures;

verus! {

/// One entry in text: its key and its value in round brackets.
pub open spec fn entry_text(key: Seq<char>, value: Seq<char>) -> Seq<char> {
    seq!['('] + key + seq![',', ' '] + value + seq![')']
}

/// The entries in text, one after the other with `", "` between them.
pub open spec fn joined(parts: Seq<(Seq<char>, Seq<char>)>) -> Seq<char>
    decreases parts.len(),
{
    if parts.len() == 0 {
        Seq::empty()
    } else if parts.len() == 1 {
        entry_text(parts[0].0, parts[0].1)
    } else {
        joined(parts.drop_last()) + seq![',', ' '] + entry_text(parts.last().0, parts.last().1)
    }
}

/// The whole listing in text: the entries in curly brackets.
pub open spec fn framed(parts: Seq<(Seq<char>, Seq<char>)>) -> Seq<char> {
    seq!['{'] + joined(parts) + seq!['}']
}

/// The characters of each key and value of `parts`.
pub open spec fn texts_of(parts: Seq<(String, String)>) -> Seq<(Seq<char>, Seq<char>)> {
    Seq::new(parts.len(), |i: int| (parts[i].0@, parts[i].1@))
}

/// `String::push_str` of std: appends the characters of `piece` to `text`.
#[verifier::external_body]
fn push_str(text: &mut String, piece: &str)
    ensures
        final(text)@ == old(text)@ + piece@,
{
    text.push_str(piece)
}

/// Writes out a listing whose keys and values are in text already, in the
/// order given.
pub fn frame_entries(parts: &Vec<(String, String)>) -> (text: String)
    ensures
        text@ == framed(texts_of(parts@)),
{
    let ghost all = texts_of(parts@);
    let mut text = String::new();
    proof {
        reveal_strlit("{");
        reveal_strlit("}");
        reveal_strlit("(");
        reveal_strlit(")");
        reveal_strlit(", ");
    }
    push_str(&mut text, "{");
    let mut i: usize = 0;
    while i < parts.len()
        invariant
            i <= parts.len(),
            all == texts_of(parts@),
            text@ == seq!['{'] + joined(all.take(i as int)),
            "("@ == seq!['('],
            ")"@ == seq![')'],
            ", "@ == seq![',', ' '],
        decreases parts.len() - i,
    {
        if i > 0 {
            push_str(&mut text, ", ");
        }
        push_str(&mut text, "(");
        push_str(&mut text, parts[i].0.as_str());
        push_str(&mut text, ", ");
        push_str(&mut text, parts[i].1.as_str());
        push_str(&mut text, ")");
        proof {
            let done = all.take(i as int);
            let grown = all.take(i + 1);
            assert(grown.drop_last() =~= done);
        }
        i += 1;
    }
    push_str(&mut text, "}");
    proof {
        assert(all.take(parts.len() as int) =~= all);
    }
    text
}

/// `parts` holds, place by place, the key and the value of `entries` as
/// their `Display` writes them.
pub open spec fn shown_as<K: Display, V: Display>(
    entries: Seq<(K, V)>,
    parts: Seq<(String, String)>,
) -> bool {
    &&& entries.len() == parts.len()
    &&& forall|i: int|
        0 <= i < entries.len() ==> to_string_from_display_ensures::<K>(
            &(#[trigger] entries[i]).0,
            parts[i].0,
        ) && to_string_from_display_ensures::<V>(&entries[i].1, parts[i].1)
}

impl<K: Ord + Display, V: Display> SkipList<K, V> {
    /// The container as text: its entries in ascending key order, each key
    /// and value as its `Display` writes it.
    pub fn to_string(&self) -> (text: String)
        requires
            self.wf(),
        ensures
            exists|parts: Seq<(String, String)>| #[trigger]
                shown_as(self.entries(), parts) && text@ == framed(texts_of(parts)),
    {
        let ghost all = self.entries();
        let mut parts: Vec<(String, String)> = Vec::new();
        let mut it = self.iter();
        loop
            invariant
                it.wf(),
                parts@.len() <= all.len(),
                it.remaining() == all.skip(parts@.len() as int),
                shown_as(all.take(parts@.len() as int), parts@),
            ensures
                parts@.len() == all.len(),
            decreases all.len() - parts@.len(),
        {
            match it.next() {
                Some((k, v)) => {
                    let key = k.to_string();
                    let value = v.to_string();
                    parts.push((key, value));
                },
                None => {
                    break ;
                },
            }
        }
        frame_entries(&parts)
    }
}

} // verus!
