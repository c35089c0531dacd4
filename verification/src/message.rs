//! Duplicate sets as a stream of messages: a marker opens a set, the paths of
//! its members follow. The producer of the sets writes the stream, the
//! consumer reads the sets back from it, message by message.

use vstd::prelude::*;

verus! {

/// One message of the stream.
#[derive(Clone, Debug, PartialEq, Eq)]
pub enum BinDupeMessage {
    /// A new set opens.
    NewSet,
    /// The path of one more member of the set that was opened last.
    Entry(String),
}

/// The mathematical value of a [`BinDupeMessage`].
pub enum MessageView {
    NewSet,
    Entry(Seq<char>),
}

impl View for BinDupeMessage {
    type V = MessageView;

    open spec fn view(&self) -> MessageView {
        match self {
            BinDupeMessage::NewSet => MessageView::NewSet,
            BinDupeMessage::Entry(p) => MessageView::Entry(p@),
        }
    }
}

/// The values of a sequence of messages.
pub open spec fn messages_view(messages: Seq<BinDupeMessage>) -> Seq<MessageView> {
    messages.map_values(|m: BinDupeMessage| m@)
}

/// The messages for one set: the marker, then one message for each path.
pub open spec fn set_messages(paths: Seq<Seq<char>>) -> Seq<MessageView> {
    seq![MessageView::NewSet] + paths.map_values(|p: Seq<char>| MessageView::Entry(p))
}

/// The messages for the first `n` sets, one set after the other.
pub open spec fn messages_upto(sets: Seq<Seq<Seq<char>>>, n: int) -> Seq<MessageView>
    decreases n,
{
    if n <= 0 {
        Seq::empty()
    } else {
        messages_upto(sets, n - 1) + set_messages(sets[n - 1])
    }
}

/// The stream for a sequence of sets.
pub open spec fn encode(sets: Seq<Seq<Seq<char>>>) -> Seq<MessageView> {
    messages_upto(sets, sets.len() as int)
}

/// The sets after one more message: a marker opens an empty set, a path
/// goes to the end of the last set. A path that comes before any marker is
/// refused.
pub open spec fn receive(sets: Seq<Seq<Seq<char>>>, m: MessageView) -> Option<Seq<Seq<Seq<char>>>> {
    match m {
        MessageView::NewSet => Some(sets.push(Seq::empty())),
        MessageView::Entry(p) => if sets.len() == 0 {
            None
        } else {
            Some(sets.update(sets.len() - 1, sets.last().push(p)))
        },
    }
}

/// The sets after the first `n` messages, read from `start` on; `None` once
/// a message was refused.
pub open spec fn feed(
    start: Option<Seq<Seq<Seq<char>>>>,
    messages: Seq<MessageView>,
    n: int,
) -> Option<Seq<Seq<Seq<char>>>>
    decreases n,
{
    if n <= 0 {
        start
    } else {
        match feed(start, messages, n - 1) {
            None => None,
            Some(sets) => receive(sets, messages[n - 1]),
        }
    }
}

/// The sets that a stream holds, `None` for a stream in which a path comes
/// before any marker.
pub open spec fn decode(messages: Seq<MessageView>) -> Option<Seq<Seq<Seq<char>>>> {
    feed(Some(Seq::empty()), messages, messages.len() as int)
}

proof fn lemma_feed_concat(
    start: Option<Seq<Seq<Seq<char>>>>,
    a: Seq<MessageView>,
    b: Seq<MessageView>,
    j: int,
)
    requires
        0 <= j <= b.len(),
    ensures
        feed(start, a + b, a.len() + j) == feed(feed(start, a, a.len() as int), b, j),
    decreases j,
{
    if j == 0 {
        lemma_feed_prefix(start, a, a + b, a.len() as int);
    } else {
        lemma_feed_concat(start, a, b, j - 1);
    }
}

proof fn lemma_feed_prefix(
    start: Option<Seq<Seq<Seq<char>>>>,
    a: Seq<MessageView>,
    b: Seq<MessageView>,
    n: int,
)
    requires
        0 <= n <= a.len(),
        n <= b.len(),
        forall|i: int| 0 <= i < n ==> a[i] == b[i],
    ensures
        feed(start, a, n) == feed(start, b, n),
    decreases n,
{
    if n > 0 {
        lemma_feed_prefix(start, a, b, n - 1);
    }
}

proof fn lemma_feed_set(sets: Seq<Seq<Seq<char>>>, paths: Seq<Seq<char>>, j: int)
    requires
        0 <= j <= paths.len(),
    ensures
        feed(Some(sets), set_messages(paths), 1 + j) == Some(sets.push(paths.take(j))),
    decreases j,
{
    if j == 0 {
        assert(paths.take(0) =~= Seq::empty());
    } else {
        lemma_feed_set(sets, paths, j - 1);
        let before = sets.push(paths.take(j - 1));
        assert(before.update(before.len() - 1, before.last().push(paths[j - 1])) =~= sets.push(
            paths.take(j),
        )) by {
            assert(paths.take(j - 1).push(paths[j - 1]) =~= paths.take(j));
        }
    }
}

/// Reading a stream that was written for a sequence of sets gives the sets
/// back.
pub proof fn lemma_decode_encode(sets: Seq<Seq<Seq<char>>>)
    ensures
        decode(encode(sets)) == Some(sets),
{
    lemma_decode_messages_upto(sets, sets.len() as int);
}

proof fn lemma_decode_messages_upto(sets: Seq<Seq<Seq<char>>>, n: int)
    requires
        0 <= n <= sets.len(),
    ensures
        decode(messages_upto(sets, n)) == Some(sets.take(n)),
    decreases n,
{
    if n > 0 {
        lemma_decode_messages_upto(sets, n - 1);
        let a = messages_upto(sets, n - 1);
        let b = set_messages(sets[n - 1]);
        lemma_feed_concat(Some(Seq::empty()), a, b, b.len() as int);
        lemma_feed_set(sets.take(n - 1), sets[n - 1], sets[n - 1].len() as int);
        assert(sets[n - 1].take(sets[n - 1].len() as int) =~= sets[n - 1]);
    }
}

/// Takes one message of the stream into the sets read so far. A path that
/// comes before any marker is refused: the sets stay as they are and the
/// result is `false`.
pub fn receive_message(sets: &mut Vec<Vec<String>>, message: &BinDupeMessage) -> (accepted: bool)
    ensures
        accepted == receive(old(sets).deep_view(), message@) is Some,
        accepted ==> Some(final(sets).deep_view()) == receive(old(sets).deep_view(), message@),
        !accepted ==> final(sets).deep_view() == old(sets).deep_view(),
{
    let ghost before = sets.deep_view();
    match message {
        BinDupeMessage::NewSet => {
            sets.push(Vec::new());
            proof {
                let after = sets.deep_view();
                let want = before.push(Seq::empty());
                assert forall|j: int| 0 <= j < after.len() implies after[j] == want[j] by {}
            }
            true
        },
        BinDupeMessage::Entry(p) => {
            let n = sets.len();
            if n == 0 {
                false
            } else {
                let path = p.clone();
                sets[n - 1].push(path);
                proof {
                    let after = sets.deep_view();
                    let want = before.update(before.len() - 1, before.last().push(p@));
                    assert forall|j: int| 0 <= j < after.len() implies after[j] == want[j] by {}
                }
                true
            }
        },
    }
}

/// Reads the sets back from a stream: `None` for a stream in which a path
/// comes before any marker.
pub fn collect_sets(messages: &Vec<BinDupeMessage>) -> (r: Option<Vec<Vec<String>>>)
    ensures
        r is Some <==> decode(messages_view(messages@)) is Some,
        r matches Some(sets) ==> Some(sets.deep_view()) == decode(messages_view(messages@)),
{
    let ghost stream = messages_view(messages@);
    let mut sets: Vec<Vec<String>> = Vec::new();
    let mut i: usize = 0;
    while i < messages.len()
        invariant
            i <= messages.len(),
            stream == messages_view(messages@),
            feed(Some(Seq::empty()), stream, i as int) == Some(sets.deep_view()),
        decreases messages.len() - i,
    {
        if !receive_message(&mut sets, &messages[i]) {
            proof {
                lemma_feed_refused(stream, i + 1, stream.len() as int);
            }
            return None;
        }
        i = i + 1;
    }
    Some(sets)
}

proof fn lemma_feed_refused(messages: Seq<MessageView>, n: int, m: int)
    requires
        0 <= n <= m,
        feed(Some(Seq::empty()), messages, n) is None,
    ensures
        feed(Some(Seq::empty()), messages, m) is None,
    decreases m - n,
{
    if n < m {
        lemma_feed_refused(messages, n, m - 1);
    }
}

} // verus!
