//! The dialogue bridge: lines waiting to be shown, and the end tokens of the
//! fragments that sent them.
//!
//! Showing a line and ending its fragment are one user interaction apart, and
//! the scheduler may start several dialogue fragments before the user has
//! acknowledged the first. The bridge therefore keeps two queues, and hands
//! tokens back in the order in which their start events arrived.

use crate::textbox::{TextBlurb, TextBlurbView, TextboxEvent};
use crate::token::EndToken;
use std::collections::VecDeque;
use vstd::prelude::*;

verus! {

/// Why the bridge could not act.
#[derive(Clone, Copy, Debug, PartialEq, Eq, Structural)]
pub enum DialogueError {
    /// The user advanced a textbox that is not there.
    NoTextbox,
}

/// What the arrival of a dialogue fragment asks of the textbox.
#[derive(Debug)]
pub struct Shown {
    /// Whether a textbox has to be spawned first.
    pub spawned: bool,
    /// The line to render now, if the textbox is free to show one.
    pub line: Option<TextBlurb>,
}

/// What a user interaction leads to.
#[derive(Debug)]
pub enum Turn {
    /// The next line, to be rendered in place of the last.
    Line(TextBlurb),
    /// Nothing is left to show: the oldest outstanding fragment ends, and the
    /// textbox closes unless it was asked to stay.
    Finished { closed: bool, token: Option<EndToken> },
}

/// The state of the bridge, as contracts see it.
#[verifier::ext_equal]
pub struct DialogueView {
    /// Lines that wait to be shown, next first.
    pub lines: Seq<TextBlurbView>,
    /// Tokens of the fragments whose end is outstanding, oldest first.
    pub tokens: Seq<EndToken>,
    /// Whether a textbox is on screen.
    pub visible: bool,
    /// Whether a line is on display and waits for the user.
    pub showing: bool,
    /// Whether the textbox stays open when the lines run out.
    pub retained: bool,
}

/// The backlog without `token`.
pub open spec fn forgotten(tokens: Seq<EndToken>, token: EndToken) -> Seq<EndToken> {
    tokens.filter(|t: EndToken| t != token)
}

impl DialogueView {
    /// Empty queues, no textbox.
    pub open spec fn initial() -> DialogueView {
        DialogueView {
            lines: Seq::empty(),
            tokens: Seq::empty(),
            visible: false,
            showing: false,
            retained: false,
        }
    }

    /// A line is only ever on display in a textbox.
    pub open spec fn wf(self) -> bool {
        self.showing ==> self.visible
    }

    /// The state after a dialogue fragment arrived with `lines`.
    ///
    /// Its lines join the queue and its token the backlog. A textbox is
    /// spawned if none is visible, and the next line goes on display unless
    /// one is there already.
    pub open spec fn on_start(self, lines: Seq<TextBlurbView>, retained: bool, token: EndToken)
        -> DialogueView {
        let queue = self.lines + lines;
        DialogueView {
            lines: if !self.showing && queue.len() > 0 {
                queue.skip(1)
            } else {
                queue
            },
            tokens: self.tokens.push(token),
            visible: true,
            showing: self.showing || queue.len() > 0,
            retained,
        }
    }

    /// The line that goes on display when a fragment arrives with `lines`.
    pub open spec fn shown(self, lines: Seq<TextBlurbView>) -> Option<TextBlurbView> {
        let queue = self.lines + lines;
        if !self.showing && queue.len() > 0 {
            Some(queue[0])
        } else {
            None
        }
    }

    /// The state after the user advanced a visible textbox.
    pub open spec fn advance(self) -> DialogueView {
        if self.lines.len() > 0 {
            DialogueView {
                lines: self.lines.skip(1),
                tokens: self.tokens,
                visible: true,
                showing: true,
                retained: self.retained,
            }
        } else {
            DialogueView {
                lines: self.lines,
                tokens: if self.tokens.len() > 0 {
                    self.tokens.skip(1)
                } else {
                    self.tokens
                },
                visible: self.retained,
                showing: false,
                retained: self.retained,
            }
        }
    }

    /// The token that an advance delivers.
    pub open spec fn ended(self) -> Option<EndToken> {
        if self.visible && self.lines.len() == 0 && self.tokens.len() > 0 {
            Some(self.tokens[0])
        } else {
            None
        }
    }

    /// The state after the textbox was closed from outside.
    pub open spec fn close(self) -> DialogueView {
        DialogueView {
            lines: self.lines,
            tokens: self.tokens,
            visible: false,
            showing: false,
            retained: self.retained,
        }
    }

    /// The state after `token` was called off.
    pub open spec fn release(self, token: EndToken) -> DialogueView {
        DialogueView {
            lines: self.lines,
            tokens: forgotten(self.tokens, token),
            visible: self.visible,
            showing: self.showing,
            retained: self.retained,
        }
    }
}

/// Something that happens to the dialogue bridge.
pub enum DialogueOp {
    /// A dialogue fragment starts.
    Start { lines: Seq<TextBlurbView>, retained: bool, token: EndToken },
    /// The user acknowledges what the textbox shows.
    Advance,
    /// The textbox is closed from outside.
    Close,
}

impl DialogueView {
    /// The state after `op`. Advancing without a textbox changes nothing.
    pub open spec fn apply(self, op: DialogueOp) -> DialogueView {
        match op {
            DialogueOp::Start { lines, retained, token } => self.on_start(lines, retained, token),
            DialogueOp::Advance => if self.visible {
                self.advance()
            } else {
                self
            },
            DialogueOp::Close => self.close(),
        }
    }

    /// The state after `ops`, one after the other.
    pub open spec fn run(self, ops: Seq<DialogueOp>) -> DialogueView
        decreases ops.len(),
    {
        if ops.len() == 0 {
            self
        } else {
            self.run(ops.drop_last()).apply(ops.last())
        }
    }

    /// The tokens that `ops` deliver, in the order of their delivery.
    pub open spec fn deliveries(self, ops: Seq<DialogueOp>) -> Seq<EndToken>
        decreases ops.len(),
    {
        if ops.len() == 0 {
            Seq::empty()
        } else {
            let before = self.run(ops.drop_last());
            match ops.last() {
                DialogueOp::Advance => match before.ended() {
                    Some(token) => self.deliveries(ops.drop_last()).push(token),
                    None => self.deliveries(ops.drop_last()),
                },
                _ => self.deliveries(ops.drop_last()),
            }
        }
    }
}

/// The tokens of the fragments that start in the course of `ops`, in the
/// order of their arrival.
pub open spec fn arrivals(ops: Seq<DialogueOp>) -> Seq<EndToken>
    decreases ops.len(),
{
    if ops.len() == 0 {
        Seq::empty()
    } else {
        match ops.last() {
            DialogueOp::Start { token, .. } => arrivals(ops.drop_last()).push(token),
            _ => arrivals(ops.drop_last()),
        }
    }
}

/// Tokens leave the bridge in the order in which they arrived: over any
/// course of events, what has been delivered, followed by what is still
/// outstanding, is the backlog at the outset followed by the arrivals.
pub proof fn lemma_tokens_resolve_in_arrival_order(v: DialogueView, ops: Seq<DialogueOp>)
    ensures
        v.deliveries(ops) + v.run(ops).tokens == v.tokens + arrivals(ops),
    decreases ops.len(),
{
    if ops.len() == 0 {
        assert(v.deliveries(ops) + v.run(ops).tokens =~= v.tokens + arrivals(ops));
    } else {
        let head = ops.drop_last();
        lemma_tokens_resolve_in_arrival_order(v, head);
        let before = v.run(head);
        assert(v.deliveries(head) + before.tokens == v.tokens + arrivals(head));
        let after = before.apply(ops.last());
        match ops.last() {
            DialogueOp::Start { lines, retained, token } => {
                assert(v.deliveries(ops) + after.tokens =~= (v.deliveries(head) + before.tokens).push(
                    token,
                ));
                assert(v.tokens + arrivals(ops) =~= (v.tokens + arrivals(head)).push(token));
            },
            DialogueOp::Advance => {
                if before.visible && before.lines.len() == 0 && before.tokens.len() > 0 {
                    assert(v.deliveries(ops) + after.tokens =~= v.deliveries(head) + before.tokens);
                } else {
                    assert(after.tokens =~= before.tokens);
                }
            },
            DialogueOp::Close => {},
        }
    }
}

/// An operation leaves the bridge well formed.
pub proof fn lemma_apply_keeps_wf(v: DialogueView, op: DialogueOp)
    requires
        v.wf(),
    ensures
        v.apply(op).wf(),
{
}

spec fn line_views(lines: Seq<TextBlurb>) -> Seq<TextBlurbView> {
    lines.map_values(|blurb: TextBlurb| blurb@)
}

/// Feeds the textbox and returns end tokens in arrival order.
#[derive(Debug)]
pub struct DialogueBridge {
    lines: VecDeque<TextBlurb>,
    tokens: VecDeque<EndToken>,
    visible: bool,
    showing: bool,
    retained: bool,
}

impl View for DialogueBridge {
    type V = DialogueView;

    closed spec fn view(&self) -> DialogueView {
        DialogueView {
            lines: line_views(self.lines@),
            tokens: self.tokens@,
            visible: self.visible,
            showing: self.showing,
            retained: self.retained,
        }
    }
}

impl DialogueBridge {
    /// The invariant of every bridge.
    pub open spec fn wf(&self) -> bool {
        self@.wf()
    }

    /// A bridge with empty queues and no textbox.
    pub fn new() -> (bridge: DialogueBridge)
        ensures
            bridge.wf(),
            bridge@ == DialogueView::initial(),
    {
        DialogueBridge {
            lines: VecDeque::new(),
            tokens: VecDeque::new(),
            visible: false,
            showing: false,
            retained: false,
        }
    }

    /// Whether a textbox is on screen.
    pub fn is_visible(&self) -> (b: bool)
        ensures
            b == self@.visible,
    {
        self.visible
    }

    /// Number of lines that wait to be shown.
    pub fn pending_lines(&self) -> (n: usize)
        ensures
            n == self@.lines.len(),
    {
        self.lines.len()
    }

    /// Number of fragments whose end is outstanding.
    pub fn pending_tokens(&self) -> (n: usize)
        ensures
            n == self@.tokens.len(),
    {
        self.tokens.len()
    }

    /// Takes in the lines of a dialogue fragment that has started and the
    /// token that will end it.
    pub fn on_start(&mut self, event: TextboxEvent, token: EndToken) -> (r: Shown)
        requires
            old(self).wf(),
        ensures
            final(self).wf(),
            final(self)@ == old(self)@.on_start(event@.blurbs, !event@.despawn_when_finished, token),
            r.spawned == !old(self)@.visible,
            r.line.deep_view() == old(self)@.shown(event@.blurbs),
    {
        let ghost arrived = event@.blurbs;
        let ghost before = self@;
        let TextboxEvent { blurbs, despawn_when_finished } = event;
        let ghost raw = blurbs@;
        proof {
            assert(arrived =~= line_views(raw));
            assert(line_views(self.lines@) =~= before.lines + arrived.take(0));
        }
        for blurb in it: blurbs
            invariant
                it.seq() == raw,
                arrived == line_views(raw),
                line_views(self.lines@) == before.lines + arrived.take(it.index() as int),
                self.tokens@ == before.tokens,
                self.visible == before.visible,
                self.showing == before.showing,
            {
            let ghost queue = line_views(self.lines@);
            proof {
                assert(arrived.take(it.index() + 1) =~= arrived.take(it.index() as int).push(blurb@));
            }
            self.lines.push_back(blurb);
            proof {
                assert(line_views(self.lines@) =~= queue.push(blurb@));
            }
        }
        proof {
            assert(arrived.take(arrived.len() as int) =~= arrived);
        }
        self.tokens.push_back(token);
        self.retained = !despawn_when_finished;
        let spawned = !self.visible;
        self.visible = true;
        let ghost queue = line_views(self.lines@);
        let line = if self.showing {
            None
        } else {
            self.lines.pop_front()
        };
        if line.is_some() {
            self.showing = true;
        }
        proof {
            if line is Some {
                assert(line_views(self.lines@) =~= queue.skip(1));
            }
            assert(self@ =~= before.on_start(arrived, !despawn_when_finished, token));
        }
        Shown { spawned, line }
    }

    /// The user acknowledged what the textbox shows.
    ///
    /// If lines are waiting, the next one goes on display. If none is, the
    /// oldest outstanding token is delivered and the textbox closes, unless
    /// it was asked to stay. Without a textbox this is an error and nothing
    /// changes.
    pub fn advance(&mut self) -> (r: Result<Turn, DialogueError>)
        requires
            old(self).wf(),
        ensures
            final(self).wf(),
            !old(self)@.visible ==> r == Err::<Turn, DialogueError>(DialogueError::NoTextbox)
                && final(self)@ == old(self)@,
            old(self)@.visible ==> final(self)@ == old(self)@.advance(),
            old(self)@.visible && old(self)@.lines.len() > 0 ==> (r matches Ok(Turn::Line(blurb))
                && blurb@ == old(self)@.lines[0]),
            old(self)@.visible && old(self)@.lines.len() == 0 ==> r == Ok::<Turn, DialogueError>(
                Turn::Finished { closed: !old(self)@.retained, token: old(self)@.ended() },
            ),
    {
        if !self.visible {
            return Err(DialogueError::NoTextbox);
        }
        let ghost queue = line_views(self.lines@);
        match self.lines.pop_front() {
            Some(line) => {
                self.showing = true;
                proof {
                    assert(line_views(self.lines@) =~= queue.skip(1));
                    assert(self@ =~= old(self)@.advance());
                }
                Ok(Turn::Line(line))
            },
            None => {
                let token = self.tokens.pop_front();
                self.showing = false;
                self.visible = self.retained;
                proof {
                    assert(self@.tokens =~= old(self)@.advance().tokens);
                    assert(self@ =~= old(self)@.advance());
                }
                Ok(Turn::Finished { closed: !self.retained, token })
            },
        }
    }

    /// The textbox was closed from outside. Both queues stay as they are.
    pub fn close(&mut self) -> (was_visible: bool)
        ensures
            final(self).wf(),
            final(self)@ == old(self)@.close(),
            was_visible == old(self)@.visible,
    {
        let was_visible = self.visible;
        self.visible = false;
        self.showing = false;
        was_visible
    }

    /// Forgets `token`: its fragment was called off and will not end.
    pub fn release(&mut self, token: EndToken)
        requires
            old(self).wf(),
        ensures
            final(self).wf(),
            final(self)@ == old(self)@.release(token),
    {
        let ghost all = self.tokens@;
        let mut kept: VecDeque<EndToken> = VecDeque::new();
        let mut index: usize = 0;
        proof {
            reveal(Seq::filter);
            assert(all.take(0) =~= Seq::<EndToken>::empty());
            assert(kept@ =~= forgotten(all.take(0), token));
        }
        while index < self.tokens.len()
            invariant
                self.tokens@ == all,
                self.lines == old(self).lines,
                self.visible == old(self).visible,
                self.showing == old(self).showing,
                self.retained == old(self).retained,
                index <= all.len(),
                kept@ == forgotten(all.take(index as int), token),
            decreases all.len() - index,
        {
            let t = self.tokens[index];
            proof {
                reveal(Seq::filter);
                assert(all.take(index + 1).drop_last() =~= all.take(index as int));
                assert(all.take(index + 1).last() == t);
            }
            if t != token {
                kept.push_back(t);
            }
            index = index + 1;
        }
        proof {
            assert(all.take(index as int) =~= all);
        }
        self.tokens = kept;
        proof {
            assert(self@ =~= old(self)@.release(token));
        }
    }
}

} // verus!
