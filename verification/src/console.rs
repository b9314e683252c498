//! The console: the line that is being typed, and the messages shown.
use vstd::prelude::*;
use vstd::string::StringExecFns;

use std::collections::VecDeque;
use crate::text::{chars_of, string_of};

verus! {

/// The character shown at the place of the cursor.
pub const CURSOR: char = '\u{2588}';

/// How many messages the console keeps at most, less one.
pub const MESSAGE_LIMIT: usize = 48;

/// Who a message is from.
#[derive(Debug, Clone, Copy, PartialEq, Eq, Structural)]
pub enum ConsoleColor {
    User,
    System,
    SystemError,
}

/// A message with the time at which it came and how long it is shown,
/// both in milliseconds.
#[derive(Debug)]
pub struct ConsoleMessage {
    pub text: String,
    pub color: ConsoleColor,
    pub epoch: u64,
    pub max_lifetime: u64,
}

impl ConsoleMessage {
    pub fn new(text: String, color: ConsoleColor, max_lifetime: u64, now: u64) -> (m:
        ConsoleMessage)
        ensures
            m.text@ == text@,
            m.color == color,
            m.epoch == now,
            m.max_lifetime == max_lifetime,
    {
        ConsoleMessage { text, color, epoch: now, max_lifetime }
    }

    /// A message is dead when it has been there for longer than it is
    /// shown.
    pub open spec fn is_dead(&self, now: u64) -> bool {
        now > self.epoch && now - self.epoch > self.max_lifetime
    }

    pub fn dead(&self, now: u64) -> (r: bool)
        ensures
            r == self.is_dead(now),
    {
        now > self.epoch && now - self.epoch > self.max_lifetime
    }
}

/// What a key does to the line that is being typed.
#[derive(Debug)]
pub enum ConsoleAction {
    Insert(String),
    Left,
    Right,
    Backspace,
    Delete,
}

/// The line that is being typed, with the cursor.
#[derive(Debug)]
pub struct ActiveConsole {
    input: Vec<char>,
    cursor: usize,
}

/// A text without its line feeds.
pub open spec fn without_line_feeds(s: Seq<char>) -> Seq<char>
    decreases s.len(),
{
    if s.len() == 0 {
        s
    } else if s.last() == '\n' {
        without_line_feeds(s.drop_last())
    } else {
        without_line_feeds(s.drop_last()).push(s.last())
    }
}

impl ActiveConsole {
    /// The line, and the place of the cursor in it.
    pub closed spec fn view(&self) -> (Seq<char>, int) {
        (self.input@, self.cursor as int)
    }

    /// The cursor is in the line or at its end.
    pub open spec fn wf(&self) -> bool {
        0 <= self.view().1 <= self.view().0.len()
    }

    /// An empty line.
    pub fn new() -> (r: ActiveConsole)
        ensures
            r.wf(),
            r.view() == (Seq::<char>::empty(), 0int),
    {
        ActiveConsole { input: Vec::new(), cursor: 0 }
    }

    /// What is shown of the line: the line as it is while the cursor is
    /// dark; else the line with the cursor in place of the character
    /// under it, or behind the line.
    pub open spec fn shown(&self, blink: bool) -> Seq<char> {
        let (line, cursor) = self.view();
        if blink {
            line
        } else if cursor >= line.len() {
            line.push(CURSOR)
        } else {
            line.update(cursor, CURSOR)
        }
    }

    pub fn text(&self, blink: bool) -> (s: String)
        requires
            self.wf(),
        ensures
            s@ == self.shown(blink),
    {
        let mut chars: Vec<char> = Vec::new();
        let mut i: usize = 0;
        while i < self.input.len()
            invariant
                i <= self.input@.len(),
                chars@.len() == i,
                forall|j: int|
                    0 <= j < i ==> chars@[j] == if !blink && j == self.cursor {
                        CURSOR
                    } else {
                        self.input@[j]
                    },
            decreases self.input@.len() - i,
        {
            if !blink && i == self.cursor {
                chars.push(CURSOR);
            } else {
                chars.push(self.input[i]);
            }
            i += 1;
        }
        if !blink && self.cursor >= self.input.len() {
            chars.push(CURSOR);
        }
        proof {
            assert(chars@ =~= self.shown(blink));
        }
        string_of(&chars)
    }

    /// Takes the line, and leaves an empty one.
    pub fn take(&mut self) -> (s: String)
        ensures
            s@ == old(self).view().0,
            final(self).view() == (Seq::<char>::empty(), 0int),
            final(self).wf(),
    {
        self.cursor = 0;
        let s = string_of(&self.input);
        self.input.clear();
        s
    }

    pub fn left(&mut self)
        requires
            old(self).wf(),
        ensures
            final(self).wf(),
            final(self).view() == (
                old(self).view().0,
                if old(self).view().1 > 0 {
                    old(self).view().1 - 1
                } else {
                    0
                },
            ),
    {
        if self.cursor > 0 {
            self.cursor = self.cursor - 1;
        }
    }

    pub fn right(&mut self)
        requires
            old(self).wf(),
        ensures
            final(self).wf(),
            final(self).view() == (
                old(self).view().0,
                if old(self).view().1 < old(self).view().0.len() {
                    old(self).view().1 + 1
                } else {
                    old(self).view().1
                },
            ),
    {
        if self.cursor < self.input.len() {
            self.cursor = self.cursor + 1;
        }
    }

    /// Removes the character before the cursor, if there is one.
    pub fn backspace(&mut self)
        requires
            old(self).wf(),
        ensures
            final(self).wf(),
            final(self).view() == if old(self).view().1 > 0 {
                (old(self).view().0.remove(old(self).view().1 - 1), old(self).view().1 - 1)
            } else {
                old(self).view()
            },
    {
        if self.cursor > 0 {
            self.cursor = self.cursor - 1;
            self.input.remove(self.cursor);
        }
    }

    /// Removes the character under the cursor, if there is one.
    pub fn delete(&mut self)
        requires
            old(self).wf(),
        ensures
            final(self).wf(),
            final(self).view() == if old(self).view().1 < old(self).view().0.len() {
                (old(self).view().0.remove(old(self).view().1), old(self).view().1)
            } else {
                old(self).view()
            },
    {
        if self.input.len() > self.cursor {
            self.input.remove(self.cursor);
        }
    }

    /// Puts a text, without its line feeds, before the cursor.
    pub fn insert(&mut self, data: String)
        requires
            old(self).wf(),
            old(self).view().0.len() + data@.len() <= usize::MAX,
        ensures
            final(self).wf(),
            final(self).view().0 == old(self).view().0.take(old(self).view().1)
                + without_line_feeds(data@) + old(self).view().0.skip(old(self).view().1),
            final(self).view().1 == old(self).view().1 + without_line_feeds(data@).len(),
    {
        let chars = chars_of(data.as_str());
        let ghost line = self.input@;
        let ghost at = self.cursor as int;
        let mut i: usize = 0;
        proof {
            assert(chars@.take(0) =~= Seq::empty());
            assert(line =~= line.take(at) + without_line_feeds(chars@.take(0)) + line.skip(at));
        }
        while i < chars.len()
            invariant
                i <= chars@.len(),
                0 <= at <= line.len(),
                line.len() + chars@.len() <= usize::MAX,
                without_line_feeds(chars@.take(i as int)).len() <= i,
                self.input@ == line.take(at) + without_line_feeds(chars@.take(i as int))
                    + line.skip(at),
                self.cursor == at + without_line_feeds(chars@.take(i as int)).len(),
            decreases chars@.len() - i,
        {
            let ch = chars[i];
            proof {
                assert(chars@.take(i as int + 1).drop_last() =~= chars@.take(i as int));
                assert(chars@.take(i as int + 1).last() == ch);
            }
            if ch != '\n' {
                let ghost before = self.input@;
                self.input.insert(self.cursor, ch);
                self.cursor = self.cursor + 1;
                proof {
                    let mid = without_line_feeds(chars@.take(i as int));
                    assert(self.input@ =~= line.take(at) + mid.push(ch) + line.skip(at));
                }
            }
            i += 1;
        }
        proof {
            assert(chars@.take(chars@.len() as int) =~= chars@);
        }
    }
}

/// The console: whether a line is being typed, and the messages, the
/// oldest first. Times are in milliseconds.
#[derive(Debug)]
pub struct Console {
    epoch: u64,
    max_lifetime: u64,
    mode: Option<ActiveConsole>,
    messages: VecDeque<ConsoleMessage>,
}

impl Console {
    /// The line that is being typed, if one is.
    pub closed spec fn line(&self) -> Option<(Seq<char>, int)> {
        match self.mode {
            Some(active) => Some(active.view()),
            None => None,
        }
    }

    /// The messages, the oldest first.
    pub closed spec fn messages(&self) -> Seq<ConsoleMessage> {
        self.messages@
    }

    /// For how long a message is shown.
    pub closed spec fn lifetime(&self) -> u64 {
        self.max_lifetime
    }

    pub closed spec fn wf(&self) -> bool {
        match self.mode {
            Some(active) => active.wf(),
            None => true,
        }
    }

    pub fn new(max_lifetime: u64, now: u64) -> (c: Console)
        ensures
            c.wf(),
            c.line() is None,
            c.messages().len() == 0,
            c.lifetime() == max_lifetime,
    {
        Console { epoch: now, max_lifetime, mode: None, messages: VecDeque::new() }
    }

    /// Takes the line that was typed, shows it among the messages behind
    /// `> `, and returns it. Nothing is done where no line is being typed.
    pub fn enter_command(&mut self, now: u64) -> (r: Option<String>)
        requires
            old(self).wf(),
        ensures
            final(self).wf(),
            final(self).lifetime() == old(self).lifetime(),
            match r {
                Some(command) => {
                    &&& old(self).line() is Some
                    &&& command@ == old(self).line().unwrap().0
                    &&& final(self).line() == Some((Seq::<char>::empty(), 0int))
                    &&& final(self).messages().len() == old(self).messages().len() + 1
                    &&& final(self).messages().last().text@ == "> "@ + command@
                    &&& final(self).messages().last().color == ConsoleColor::User
                    &&& final(self).messages().last().epoch == now
                },
                None => old(self).line() is None && final(self).messages() == old(self).messages()
                    && final(self).line() is None,
            },
    {
        match self.mode.take() {
            Some(mut active) => {
                let command = active.take();
                let mut entry = String::from_str("> ");
                entry.append(command.as_str());
                self.mode = Some(active);
                self.push(entry, now);
                Some(command)
            },
            None => None,
        }
    }

    /// Starts a line.
    pub fn activate(&mut self)
        ensures
            final(self).wf(),
            final(self).line() == Some((Seq::<char>::empty(), 0int)),
            final(self).messages() == old(self).messages(),
            final(self).lifetime() == old(self).lifetime(),
    {
        self.mode = Some(ActiveConsole::new());
    }

    /// Drops the line.
    pub fn deactivate(&mut self)
        ensures
            final(self).wf(),
            final(self).line() is None,
            final(self).messages() == old(self).messages(),
            final(self).lifetime() == old(self).lifetime(),
    {
        self.mode = None;
    }

    pub fn is_active(&self) -> (r: bool)
        ensures
            r == self.line() is Some,
    {
        self.mode.is_some()
    }

    /// Does to the line what a key asks for, where a line is being typed.
    pub fn action(&mut self, action: ConsoleAction)
        requires
            old(self).wf(),
            match action {
                ConsoleAction::Insert(data) => old(self).line() is Some ==> old(self).line().unwrap().0.len() + data@.len() <= usize::MAX,
                _ => true,
            },
        ensures
            final(self).wf(),
            final(self).messages() == old(self).messages(),
            final(self).lifetime() == old(self).lifetime(),
            final(self).line() is Some == old(self).line() is Some,
            old(self).line() is Some ==> {
                let (line, cursor) = old(self).line().unwrap();
                final(self).line().unwrap() == match action {
                    ConsoleAction::Insert(data) => (
                        line.take(cursor) + without_line_feeds(data@) + line.skip(cursor),
                        cursor + without_line_feeds(data@).len(),
                    ),
                    ConsoleAction::Left => (
                        line,
                        if cursor > 0 {
                            cursor - 1
                        } else {
                            0
                        },
                    ),
                    ConsoleAction::Right => (
                        line,
                        if cursor < line.len() {
                            cursor + 1
                        } else {
                            cursor
                        },
                    ),
                    ConsoleAction::Backspace => if cursor > 0 {
                        (line.remove(cursor - 1), cursor - 1)
                    } else {
                        (line, cursor)
                    },
                    ConsoleAction::Delete => if cursor < line.len() {
                        (line.remove(cursor), cursor)
                    } else {
                        (line, cursor)
                    },
                }
            },
    {
        match self.mode.take() {
            Some(mut active) => {
                match action {
                    ConsoleAction::Insert(data) => active.insert(data),
                    ConsoleAction::Left => active.left(),
                    ConsoleAction::Right => active.right(),
                    ConsoleAction::Backspace => active.backspace(),
                    ConsoleAction::Delete => active.delete(),
                }
                self.mode = Some(active);
            },
            None => {},
        }
    }

    /// How many of the first `n` messages are not dead.
    pub open spec fn alive_before(messages: Seq<ConsoleMessage>, now: u64, n: int) -> nat
        decreases n,
    {
        if n <= 0 {
            0
        } else {
            Console::alive_before(messages, now, n - 1) + if messages[n - 1].is_dead(now) {
                0nat
            } else {
                1nat
            }
        }
    }

    /// How many messages are not dead.
    pub fn len(&self, now: u64) -> (n: usize)
        ensures
            n == Console::alive_before(self.messages(), now, self.messages().len() as int),
    {
        let mut n: usize = 0;
        let mut i: usize = 0;
        while i < self.messages.len()
            invariant
                i <= self.messages@.len(),
                n <= i,
                n == Console::alive_before(self.messages@, now, i as int),
            decreases self.messages@.len() - i,
        {
            if !self.messages[i].dead(now) {
                n += 1;
            }
            i += 1;
        }
        n
    }

    /// Drops the oldest messages until fewer than the limit are left.
    pub fn tick(&mut self)
        ensures
            final(self).line() == old(self).line(),
            final(self).lifetime() == old(self).lifetime(),
            final(self).wf() == old(self).wf(),
            final(self).messages() == if old(self).messages().len() >= MESSAGE_LIMIT {
                old(self).messages().skip(old(self).messages().len() - MESSAGE_LIMIT + 1)
            } else {
                old(self).messages()
            },
    {
        let ghost all = self.messages@;
        proof {
            assert(all.skip(0) =~= all);
        }
        while self.messages.len() >= MESSAGE_LIMIT
            invariant
                self.mode == old(self).mode,
                self.max_lifetime == old(self).max_lifetime,
                self.messages@.len() <= all.len(),
                self.messages@ == all.skip(all.len() - self.messages@.len()),
                all.len() < MESSAGE_LIMIT ==> self.messages@.len() == all.len(),
                all.len() >= MESSAGE_LIMIT ==> self.messages@.len() >= MESSAGE_LIMIT - 1,
            decreases self.messages@.len(),
        {
            self.messages.pop_front();
            proof {
                assert(self.messages@ =~= all.skip(all.len() - self.messages@.len()));
            }
        }
    }

    /// Shows a message of the user.
    pub fn push(&mut self, text: String, now: u64)
        ensures
            final(self).line() == old(self).line(),
            final(self).lifetime() == old(self).lifetime(),
            final(self).wf() == old(self).wf(),
            final(self).messages().len() == old(self).messages().len() + 1,
            final(self).messages().drop_last() == old(self).messages(),
            final(self).messages().last().text@ == text@,
            final(self).messages().last().color == ConsoleColor::User,
            final(self).messages().last().epoch == now,
            final(self).messages().last().max_lifetime == old(self).lifetime(),
    {
        let ghost before = self.messages@;
        self.messages.push_back(ConsoleMessage::new(text, ConsoleColor::User, self.max_lifetime, now));
        proof {
            assert(self.messages@.drop_last() =~= before);
        }
    }

    /// Shows a message of the program: a plain one, or an error.
    pub fn push_system(&mut self, text: Result<String, String>, now: u64)
        ensures
            final(self).line() == old(self).line(),
            final(self).lifetime() == old(self).lifetime(),
            final(self).wf() == old(self).wf(),
            final(self).messages().len() == old(self).messages().len() + 1,
            final(self).messages().drop_last() == old(self).messages(),
            final(self).messages().last().epoch == now,
            final(self).messages().last().max_lifetime == old(self).lifetime(),
            match text {
                Ok(t) => final(self).messages().last().text@ == t@ && final(self).messages().last().color == ConsoleColor::System,
                Err(t) => final(self).messages().last().text@ == t@ && final(self).messages().last().color == ConsoleColor::SystemError,
            },
    {
        let ghost before = self.messages@;
        let (text, color) = match text {
            Ok(t) => (t, ConsoleColor::System),
            Err(t) => (t, ConsoleColor::SystemError),
        };
        self.messages.push_back(ConsoleMessage::new(text, color, self.max_lifetime, now));
        proof {
            assert(self.messages@.drop_last() =~= before);
        }
    }
}

/// The console, to be written to.
pub struct ConsoleHandle<'c> {
    pub inner: &'c mut Console,
}

impl<'c> ConsoleHandle<'c> {
    /// The console that is written to.
    pub open spec fn console(&self) -> Console {
        *self.inner
    }

    /// Shows a message of the user.
    pub fn push(&mut self, text: String, now: u64)
        ensures
            final(self).console().line() == old(self).console().line(),
            final(self).console().lifetime() == old(self).console().lifetime(),
            final(self).console().messages().len() == old(self).console().messages().len() + 1,
            final(self).console().messages().drop_last() == old(self).console().messages(),
            final(self).console().messages().last().text@ == text@,
            final(self).console().messages().last().color == ConsoleColor::User,
            final(self).console().messages().last().epoch == now,
            final(self).console().messages().last().max_lifetime == old(self).console().lifetime(),
            final(self).console().wf() == old(self).console().wf(),
    {
        self.inner.push(text, now)
    }

    /// Shows a message of the program: a plain one, or an error.
    pub fn push_system(&mut self, text: Result<String, String>, now: u64)
        ensures
            final(self).console().line() == old(self).console().line(),
            final(self).console().lifetime() == old(self).console().lifetime(),
            final(self).console().messages().len() == old(self).console().messages().len() + 1,
            final(self).console().messages().drop_last() == old(self).console().messages(),
            final(self).console().messages().last().epoch == now,
            final(self).console().messages().last().max_lifetime == old(self).console().lifetime(),
            final(self).console().wf() == old(self).console().wf(),
            match text {
                Ok(t) => final(self).console().messages().last().text@ == t@ && final(self).console().messages().last().color == ConsoleColor::System,
                Err(t) => final(self).console().messages().last().text@ == t@ && final(self).console().messages().last().color == ConsoleColor::SystemError,
            },
    {
        self.inner.push_system(text, now)
    }
}

impl Console {
    /// The console, to be written to. What is written through the handle
    /// stands in the console.
    pub fn handle(&mut self) -> (h: ConsoleHandle<'_>)
        ensures
            h.console() == *old(self),
            *final(self) == *final(h.inner),
    {
        ConsoleHandle { inner: self }
    }
}

} // verus!
