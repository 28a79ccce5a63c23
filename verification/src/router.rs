//! The event router: the decisions taken for a created and for an edited
//! message. The outside chat platform delivers the events and performs the
//! sends, fetches and deletions; the functions here decide what to do, build
//! the reply text, and keep the correlation store in step.

use vstd::prelude::*;
use crate::rewriter::LinkMatch;
use crate::rewriter::append_range;
use crate::rewriter::find_broken_links;
use crate::rewriter::has_broken_link;
use crate::rewriter::link_match_ok;
use crate::store::CorrelationStore;

verus! {

/// What the router reads of an inbound message: its identity, where it was
/// posted, whether its author is an automated account, whether it was posted
/// privately rather than in a channel, and its text.
pub struct ChatMessage {
    pub id: u64,
    pub channel_id: u64,
    pub author_is_bot: bool,
    pub is_private: bool,
    pub content: Vec<char>,
}

/// The fixed first line of a reply.
pub open spec fn reply_header() -> Seq<char> {
    seq![
        '*', '*', '\u{2728}', ' ', 'F', 'i', 'x', 'e', 'd', ' ', 'y', 'o',
        'u', 'r', ' ', 'l', 'i', 'n', 'k', 's', '!', '*', '*',
    ]
}

/// The rewritten form of the match starting at `st` in `s`.
pub open spec fn fixed_of(s: Seq<char>, st: int) -> Seq<char> {
    crate::rewriter::rewrite_spec(crate::rewriter::match_text(s, st))
}

/// One line per match: a line break followed by the rewritten link, in the
/// order the matches start.
pub open spec fn link_lines(s: Seq<char>, starts: Seq<int>) -> Seq<char>
    decreases starts.len(),
{
    if starts.len() == 0 {
        Seq::empty()
    } else {
        seq!['\n'] + fixed_of(s, starts[0]) + link_lines(s, starts.subrange(1, starts.len() as int))
    }
}

/// The whole reply body for a message text: header, one line per rewritten
/// link, trailing note.
pub open spec fn reply_body(s: Seq<char>) -> Seq<char> {
    reply_header() + link_lines(s, crate::rewriter::match_starts(s)) + reply_footer()
}

/// `link_lines` distributes over splitting the list of starts.
proof fn lemma_link_lines_concat(s: Seq<char>, a: Seq<int>, b: Seq<int>)
    ensures
        link_lines(s, a + b) == link_lines(s, a) + link_lines(s, b),
    decreases a.len(),
{
    if a.len() == 0 {
        assert(a + b =~= b);
        assert(link_lines(s, a) + link_lines(s, b) =~= link_lines(s, b));
    } else {
        lemma_link_lines_concat(s, a.subrange(1, a.len() as int), b);
        assert((a + b).subrange(1, (a + b).len() as int) =~= a.subrange(1, a.len() as int) + b);
        assert((a + b)[0] == a[0]);
        assert(link_lines(s, a + b) =~= link_lines(s, a) + link_lines(s, b));
    }
}

/// The characters of `reply_header`.
fn header_vec() -> (v: Vec<char>)
    ensures
        v@ == reply_header(),
{
    let mut v: Vec<char> = Vec::new();
    v.push('*');
    v.push('*');
    v.push('\u{2728}');
    v.push(' ');
    v.push('F');
    v.push('i');
    v.push('x');
    v.push('e');
    v.push('d');
    v.push(' ');
    v.push('y');
    v.push('o');
    v.push('u');
    v.push('r');
    v.push(' ');
    v.push('l');
    v.push('i');
    v.push('n');
    v.push('k');
    v.push('s');
    v.push('!');
    v.push('*');
    v.push('*');
    proof {
        assert(v@ =~= reply_header());
    }
    v
}

/// A slice of the trailing note (`reply_footer` concatenates the slices).
pub open spec fn footer_a() -> Seq<char> {
    seq![
        '\n', '\n', '\u{1F37F}', ' ', 'P', 'l', 'e', 'a', 's', 'e', ' ', 'u',
        'p', 'd', 'a', 't', 'e', ' ', 't', 'h', 'e', ' ', 'l', 'i',
        'n', 'k', '(', 's', ')', ' ', 'i', 'n', ' ', 'y', 'o', 'u',
        'r', ' ', 'm', 'e',
    ]
}

/// The characters of `footer_a`.
fn footer_a_vec() -> (v: Vec<char>)
    ensures
        v@ == footer_a(),
{
    let mut v: Vec<char> = Vec::new();
    v.push('\n');
    v.push('\n');
    v.push('\u{1F37F}');
    v.push(' ');
    v.push('P');
    v.push('l');
    v.push('e');
    v.push('a');
    v.push('s');
    v.push('e');
    v.push(' ');
    v.push('u');
    v.push('p');
    v.push('d');
    v.push('a');
    v.push('t');
    v.push('e');
    v.push(' ');
    v.push('t');
    v.push('h');
    v.push('e');
    v.push(' ');
    v.push('l');
    v.push('i');
    v.push('n');
    v.push('k');
    v.push('(');
    v.push('s');
    v.push(')');
    v.push(' ');
    v.push('i');
    v.push('n');
    v.push(' ');
    v.push('y');
    v.push('o');
    v.push('u');
    v.push('r');
    v.push(' ');
    v.push('m');
    v.push('e');
    proof {
        assert(v@ =~= footer_a());
    }
    v
}

/// A slice of the trailing note (`reply_footer` concatenates the slices).
pub open spec fn footer_b() -> Seq<char> {
    seq![
        's', 's', 'a', 'g', 'e', ' ', 'a', 'n', 'd', ' ', 'I', '\'',
        'l', 'l', ' ', 'd', 'e', 'l', 'e', 't', 'e', ' ', 't', 'h',
        'i', 's', ' ', 'o', 'n', 'e', ' ', ':', ')', '\n', '\u{2049}', ' ',
        'W', 'h', 'a', 't',
    ]
}

/// The characters of `footer_b`.
fn footer_b_vec() -> (v: Vec<char>)
    ensures
        v@ == footer_b(),
{
    let mut v: Vec<char> = Vec::new();
    v.push('s');
    v.push('s');
    v.push('a');
    v.push('g');
    v.push('e');
    v.push(' ');
    v.push('a');
    v.push('n');
    v.push('d');
    v.push(' ');
    v.push('I');
    v.push('\'');
    v.push('l');
    v.push('l');
    v.push(' ');
    v.push('d');
    v.push('e');
    v.push('l');
    v.push('e');
    v.push('t');
    v.push('e');
    v.push(' ');
    v.push('t');
    v.push('h');
    v.push('i');
    v.push('s');
    v.push(' ');
    v.push('o');
    v.push('n');
    v.push('e');
    v.push(' ');
    v.push(':');
    v.push(')');
    v.push('\n');
    v.push('\u{2049}');
    v.push(' ');
    v.push('W');
    v.push('h');
    v.push('a');
    v.push('t');
    proof {
        assert(v@ =~= footer_b());
    }
    v
}

/// A slice of the trailing note (`reply_footer` concatenates the slices).
pub open spec fn footer_c() -> Seq<char> {
    seq![
        ' ', 'i', 's', ' ', 't', 'h', 'i', 's', '?', ':', ' ', '<',
        'h', 't', 't', 'p', 's', ':', '/', '/', 's', 'e', 'x', 'n',
        'i', 'n', 'e', '.', 'x', 'y', 'z', '/', 'w', 'h', 'y', 'c',
        'd', 'n', '>',
    ]
}

/// The characters of `footer_c`.
fn footer_c_vec() -> (v: Vec<char>)
    ensures
        v@ == footer_c(),
{
    let mut v: Vec<char> = Vec::new();
    v.push(' ');
    v.push('i');
    v.push('s');
    v.push(' ');
    v.push('t');
    v.push('h');
    v.push('i');
    v.push('s');
    v.push('?');
    v.push(':');
    v.push(' ');
    v.push('<');
    v.push('h');
    v.push('t');
    v.push('t');
    v.push('p');
    v.push('s');
    v.push(':');
    v.push('/');
    v.push('/');
    v.push('s');
    v.push('e');
    v.push('x');
    v.push('n');
    v.push('i');
    v.push('n');
    v.push('e');
    v.push('.');
    v.push('x');
    v.push('y');
    v.push('z');
    v.push('/');
    v.push('w');
    v.push('h');
    v.push('y');
    v.push('c');
    v.push('d');
    v.push('n');
    v.push('>');
    proof {
        assert(v@ =~= footer_c());
    }
    v
}

/// The fixed trailing note of a reply.
pub open spec fn reply_footer() -> Seq<char> {
    footer_a() + footer_b() + footer_c()
}

/// The characters of `reply_footer`.
fn footer_vec() -> (v: Vec<char>)
    ensures
        v@ == reply_footer(),
{
    let mut v = footer_a_vec();
    let b = footer_b_vec();
    let c = footer_c_vec();
    crate::rewriter::append_range(&mut v, &b, 0, b.len());
    crate::rewriter::append_range(&mut v, &c, 0, c.len());
    proof {
        assert(b@.subrange(0, b@.len() as int) =~= b@);
        assert(c@.subrange(0, c@.len() as int) =~= c@);
        assert(v@ =~= reply_footer());
    }
    v
}

/// What a created message calls for.
pub enum CreateAction {
    /// Automated author, private message, or no broken link: nothing is sent
    /// and nothing is recorded.
    Ignore,
    /// Send `body` as a pinging reply to the message; on a successful send,
    /// record the correlation with `on_reply_sent`.
    Reply { body: Vec<char> },
}

/// Decides the handling of a created message: replies exactly when the
/// author is human, the message was posted in a channel, and its text holds
/// at least one broken link; the reply body is the header, one line per
/// rewritten link in order of first occurrence, and the trailing note.
pub fn plan_create(msg: &ChatMessage) -> (action: CreateAction)
    ensures
        match action {
            CreateAction::Ignore => msg.author_is_bot || msg.is_private
                || crate::rewriter::match_starts(msg.content@).len() == 0,
            CreateAction::Reply { body } => !msg.author_is_bot && !msg.is_private
                && crate::rewriter::match_starts(msg.content@).len() > 0
                && body@ == reply_body(msg.content@),
        },
{
    if msg.author_is_bot || msg.is_private {
        return CreateAction::Ignore;
    }
    let found = find_broken_links(&msg.content);
    if found.len() == 0 {
        return CreateAction::Ignore;
    }
    let ghost s = msg.content@;
    let ghost starts = crate::rewriter::match_starts(s);
    let mut body = header_vec();
    let mut k: usize = 0;
    while k < found.len()
        invariant
            0 <= k <= found@.len(),
            found@.len() == starts.len(),
            starts == crate::rewriter::match_starts(s),
            s == msg.content@,
            forall|t: int|
                0 <= t < found@.len() ==> link_match_ok(s, #[trigger] found@[t], starts[t]),
            body@ == reply_header() + link_lines(s, starts.subrange(0, k as int)),
        decreases found@.len() - k,
    {
        body.push('\n');
        let lm: &LinkMatch = &found[k];
        append_range(&mut body, &lm.fixed, 0, lm.fixed.len());
        proof {
            let ghost st = starts[k as int];
            assert(lm.fixed@.subrange(0, lm.fixed@.len() as int) =~= lm.fixed@);
            lemma_link_lines_concat(s, starts.subrange(0, k as int), seq![st]);
            assert(starts.subrange(0, k as int + 1) =~= starts.subrange(0, k as int) + seq![st]);
            assert(seq![st].subrange(1, 1) =~= Seq::<int>::empty());
            assert(seq![st].subrange(1, seq![st].len() as int) == Seq::<int>::empty());
            assert(link_lines(s, Seq::<int>::empty()) =~= Seq::<char>::empty());
            assert(link_lines(s, seq![st]) == seq!['\n'] + fixed_of(s, st) + link_lines(
                s,
                Seq::<int>::empty(),
            ));
            assert(link_lines(s, seq![st]) =~= seq!['\n'] + fixed_of(s, st));
            assert(body@ =~= reply_header() + link_lines(s, starts.subrange(0, k as int + 1)));
        }
        k = k + 1;
    }
    let footer = footer_vec();
    append_range(&mut body, &footer, 0, footer.len());
    proof {
        assert(footer@.subrange(0, footer@.len() as int) =~= footer@);
        assert(starts.subrange(0, found@.len() as int) =~= starts);
        assert(body@ =~= reply_body(s));
    }
    CreateAction::Reply { body }
}

/// A reply went out for `original_id` and came back as message `reply_id`:
/// record the correlation, overwriting any stale entry. This is the only
/// step that creates an entry; a failed send records nothing.
pub fn on_reply_sent(store: &mut CorrelationStore, original_id: u64, reply_id: u64)
    ensures
        final(store)@ == old(store)@.insert(original_id, reply_id),
{
    store.insert(original_id, reply_id);
}

/// What an edited message calls for before any content is known.
pub enum EditStep {
    /// The edited message is not tracked: nothing is fetched or deleted.
    Skip,
    /// The edited message is tracked; fetch its current full text, then call
    /// `resolve_edit` with it. `reply_id` is the recorded reply.
    Fetch { reply_id: u64 },
}

/// Decides the handling of an edited message from the store alone: an id
/// with no entry is ignored outright; a tracked id asks for a fetch of the
/// current text. The store is not changed either way.
pub fn plan_edit(store: &CorrelationStore, edited_id: u64) -> (step: EditStep)
    ensures
        match step {
            EditStep::Skip => !store@.contains_key(edited_id),
            EditStep::Fetch { reply_id } => store@.contains_key(edited_id) && reply_id
                == store@[edited_id],
        },
{
    match store.take(edited_id) {
        Some(reply_id) => EditStep::Fetch { reply_id },
        None => EditStep::Skip,
    }
}

/// What a tracked edit resolves to once the current text is in hand.
pub enum EditOutcome {
    /// The text still holds a broken link: leave the reply and the entry in
    /// place so a later edit can try again.
    KeepWaiting,
    /// No broken link remains: the entry is gone and the recorded reply
    /// should be deleted. The correlation counts as resolved even if the
    /// deletion then fails, so the entry is removed regardless.
    Retract { reply_id: u64 },
}

/// Resolves a tracked edit against the freshly fetched text: keeps waiting
/// while a broken link remains, and otherwise retracts, removing the entry
/// for `edited_id` whatever becomes of the deletion. (A fetch that fails
/// must not reach this point: the entry is then left untouched.)
pub fn resolve_edit(
    store: &mut CorrelationStore,
    edited_id: u64,
    reply_id: u64,
    content: &Vec<char>,
) -> (outcome: EditOutcome)
    ensures
        match outcome {
            EditOutcome::KeepWaiting => crate::rewriter::match_starts(content@).len() > 0
                && final(store)@ == old(store)@,
            EditOutcome::Retract { reply_id: r } => crate::rewriter::match_starts(content@).len()
                == 0 && r == reply_id && final(store)@ == old(store)@.remove(edited_id),
        },
{
    if has_broken_link(content) {
        EditOutcome::KeepWaiting
    } else {
        store.remove(edited_id);
        EditOutcome::Retract { reply_id }
    }
}

} // verus!
