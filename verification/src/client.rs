use vstd::prelude::*;
use crate::board::Tasks;
use crate::text::{chars_of, push_char, push_str, repeat, string_of};

verus! {

/// What the command line does with its text on Enter.
#[derive(Debug, PartialEq, Eq, Structural, Clone, Copy)]
pub enum CommandKind {
    AddTask,
    Find,
}

/// The command line: its kind and the text typed so far.
pub struct Command {
    pub kind: CommandKind,
    pub string: String,
}

/// The terminal client's state: the command line, a tick counter, the board's tasks and the
/// cursor position in the command line.
pub struct State {
    pub command: Command,
    pub c: usize,
    pub tasks: Tasks,
    pub cursor_x: usize,
}

/// A key as the client tells them apart.
pub enum KeyInput {
    Char(char),
    Backspace,
    Enter,
    Other,
}

/// A terminal event as the client tells them apart.
pub enum InputEvent {
    /// Escape pressed with no modifier.
    Esc,
    /// Another key; `control_only` when Control is the only modifier held.
    Key { code: KeyInput, control_only: bool },
    /// The terminal was resized.
    Resize { width: u16, height: u16 },
    Other,
}

/// What the client loop does after an event.
pub enum ClientAction {
    /// Keep running.
    Continue,
    /// Leave the loop.
    Stop,
    /// Send this command text to the server, then keep running.
    Send(String),
    /// Clear and redraw the screen for the new size, then keep running.
    ResetScreen { width: u16, height: u16 },
}

/// The name of a command kind, as its debug form shows it.
pub open spec fn kind_name(k: CommandKind) -> Seq<char> {
    match k {
        CommandKind::AddTask => "AddTask"@,
        CommandKind::Find => "Find"@,
    }
}

impl State {
    /// The cursor stands on the command text or just after it.
    pub open spec fn cursor_ok(&self) -> bool {
        self.cursor_x <= self.command.string@.len()
    }

    /// A client with an empty add-task command line, no tasks and a zero counter.
    pub fn new() -> (s: State)
        ensures
            s.cursor_ok(),
            s.command.kind == CommandKind::AddTask,
            s.command.string@ == Seq::<char>::empty(),
            s.c == 0,
            s.tasks@.len() == 0,
            s.cursor_x == 0,
    {
        State {
            command: Command { kind: CommandKind::AddTask, string: String::new() },
            c: 0,
            tasks: Vec::new(),
            cursor_x: 0,
        }
    }

    /// One tick of the timer: the counter goes up.
    pub fn tick(&mut self)
        requires
            old(self).c < usize::MAX,
        ensures
            final(self).c == old(self).c + 1,
            final(self).tasks@ == old(self).tasks@,
            final(self).cursor_x == old(self).cursor_x,
            final(self).command.string@ == old(self).command.string@,
            final(self).command.kind == old(self).command.kind,
    {
        self.c = self.c + 1;
    }

    /// Handles one terminal event: Escape, or a character with Control alone, stops; another
    /// character is typed into the command line; Backspace moves the cursor left; Enter sends the
    /// command text and clears it; a resize asks for the screen to be reset.
    pub fn on_event(&mut self, event: InputEvent) -> (action: ClientAction)
        requires
            old(self).cursor_x < usize::MAX,
        ensures
            old(self).cursor_ok() ==> final(self).cursor_ok(),
            final(self).c == old(self).c,
            final(self).tasks@ == old(self).tasks@,
            final(self).command.kind == old(self).command.kind,
            match event {
                InputEvent::Esc => action is Stop && final(self).command.string@ == old(self).command.string@
                    && final(self).cursor_x == old(self).cursor_x,
                InputEvent::Key { code: KeyInput::Char(ch), control_only: true } => action is Stop
                    && final(self).command.string@ == old(self).command.string@
                    && final(self).cursor_x == old(self).cursor_x,
                InputEvent::Key { code: KeyInput::Char(ch), control_only: false } => action is Continue
                    && final(self).command.string@ == old(self).command.string@.push(ch)
                    && final(self).cursor_x == old(self).cursor_x + 1,
                InputEvent::Key { code: KeyInput::Backspace, .. } => action is Continue
                    && final(self).command.string@ == old(self).command.string@
                    && final(self).cursor_x == if old(self).cursor_x > 0 { old(self).cursor_x - 1 } else { 0 },
                InputEvent::Key { code: KeyInput::Enter, .. } => (action matches ClientAction::Send(s)
                    && s@ == old(self).command.string@) && final(self).command.string@ == Seq::<char>::empty()
                    && final(self).cursor_x == 0,
                InputEvent::Resize { width, height } => action == (ClientAction::ResetScreen { width, height })
                    && final(self).command.string@ == old(self).command.string@
                    && final(self).cursor_x == old(self).cursor_x,
                _ => action is Continue && final(self).command.string@ == old(self).command.string@
                    && final(self).cursor_x == old(self).cursor_x,
            },
    {
        match event {
            InputEvent::Esc => ClientAction::Stop,
            InputEvent::Key { code, control_only } => match code {
                KeyInput::Char(ch) => {
                    if control_only {
                        ClientAction::Stop
                    } else {
                        push_char(&mut self.command.string, ch);
                        self.cursor_x = self.cursor_x + 1;
                        ClientAction::Continue
                    }
                },
                KeyInput::Backspace => {
                    if self.cursor_x > 0 {
                        self.cursor_x = self.cursor_x - 1;
                    }
                    ClientAction::Continue
                },
                KeyInput::Enter => {
                    let mut sent = String::new();
                    std::mem::swap(&mut sent, &mut self.command.string);
                    self.cursor_x = 0;
                    ClientAction::Send(sent)
                },
                KeyInput::Other => ClientAction::Continue,
            },
            InputEvent::Resize { width, height } => ClientAction::ResetScreen { width, height },
            InputEvent::Other => ClientAction::Continue,
        }
    }

    /// The command line as drawn: the kind's name, `: `, the text, one space, then twenty spaces.
    pub fn command_line(&self) -> (line: String)
        ensures
            line@ == kind_name(self.command.kind) + ": "@ + self.command.string@ + " "@ + repeat(" "@, 20),
    {
        let mut line = String::new();
        match self.command.kind {
            CommandKind::AddTask => push_str(&mut line, "AddTask"),
            CommandKind::Find => push_str(&mut line, "Find"),
        }
        push_str(&mut line, ": ");
        push_str(&mut line, self.command.string.as_str());
        push_str(&mut line, " ");
        let mut i: usize = 0;
        let ghost head = line@;
        while i < 20
            invariant
                i <= 20,
                line@ == head + repeat(" "@, i as nat),
            decreases 20 - i,
        {
            push_str(&mut line, " ");
            i = i + 1;
        }
        line
    }
}

impl State {
    /// The column of the cursor on the command line: after the kind's name and `: `.
    pub fn cursor_column(&self) -> (x: usize)
        requires
            self.cursor_x + 9 <= usize::MAX,
        ensures
            x == self.cursor_x + kind_name(self.command.kind).len() + 2,
    {
        proof {
            reveal_strlit("AddTask");
            reveal_strlit("Find");
        }
        let name_len: usize = match self.command.kind {
            CommandKind::AddTask => 7,
            CommandKind::Find => 4,
        };
        self.cursor_x + name_len + 2
    }

    /// The text under the cursor: the command text followed by a space, sliced at the cursor's
    /// byte position for one byte. The cursor must stand at the start of a one-byte character.
    pub fn cursor_char(&self) -> (r: String)
        requires
            exists|i: int| #[trigger] cursor_at(self.command.string@ + " "@, i, self.cursor_x as nat),
        ensures
            forall|i: int| #[trigger] cursor_at(self.command.string@ + " "@, i, self.cursor_x as nat)
                ==> r@ == seq![(self.command.string@ + " "@)[i]],
    {
        let mut v = chars_of(self.command.string.as_str());
        push_space(&mut v);
        let ghost t = v@;
        let ghost i0 = choose|i: int| #[trigger] cursor_at(t, i, self.cursor_x as nat);
        let x = self.cursor_x;
        let mut j: usize = 0;
        let mut off: usize = 0;
        while off < x
            invariant
                t == v@,
                cursor_at(t, i0, x as nat),
                j <= i0,
                off == byte_offset(t, j as int),
            decreases x - off,
        {
            proof {
                lemma_byte_offset_mono(t, j as int, i0);
                if j == i0 {
                    assert(false);
                }
                lemma_byte_offset_mono(t, j + 1, i0);
                assert(byte_offset(t, j + 1) == byte_offset(t, j as int) + utf8_width(t[j as int]));
            }
            assert(j < v.len());
            off = off + utf8_len(v[j]);
            j = j + 1;
        }
        proof {
            if j < i0 {
                lemma_byte_offset_mono(t, j as int, i0);
            }
        }
        assert(j == i0);
        let r = string_of(&v, j, j + 1);
        assert(r@ =~= seq![t[i0]]);
        proof {
            assert forall|i: int| #[trigger] cursor_at(t, i, x as nat) implies r@ == seq![t[i]] by {
                if i < i0 {
                    lemma_byte_offset_mono(t, i + 1, i0);
                    lemma_byte_offset_mono(t, i, i + 1);
                } else if i > i0 {
                    lemma_byte_offset_mono(t, i0 + 1, i);
                    lemma_byte_offset_mono(t, i0, i0 + 1);
                }
            }
        }
        r
    }
}

/// The number of bytes of a character in UTF-8, as `char::len_utf8` documents it.
pub open spec fn utf8_width(c: char) -> nat {
    if (c as u32) < 0x80 {
        1
    } else if (c as u32) < 0x800 {
        2
    } else if (c as u32) < 0x10000 {
        3
    } else {
        4
    }
}

/// The byte position of the `i`-th character of `s` in its UTF-8 form.
pub open spec fn byte_offset(s: Seq<char>, i: int) -> nat
    decreases i,
{
    if i <= 0 {
        0
    } else {
        byte_offset(s, i - 1) + utf8_width(s[i - 1])
    }
}

/// The byte position `x` of `s` is the start of its `i`-th character, which takes one byte.
pub open spec fn cursor_at(s: Seq<char>, i: int, x: nat) -> bool {
    0 <= i < s.len() && byte_offset(s, i) == x && (s[i] as u32) < 0x80
}

proof fn lemma_byte_offset_mono(s: Seq<char>, a: int, b: int)
    requires
        0 <= a <= b,
    ensures
        byte_offset(s, a) + (b - a) <= byte_offset(s, b),
    decreases b - a,
{
    if a < b {
        lemma_byte_offset_mono(s, a, b - 1);
    }
}

fn utf8_len(c: char) -> (n: usize)
    ensures
        n == utf8_width(c),
{
    let u = c as u32;
    if u < 0x80 {
        1
    } else if u < 0x800 {
        2
    } else if u < 0x10000 {
        3
    } else {
        4
    }
}

fn push_space(v: &mut Vec<char>)
    ensures
        final(v)@ == old(v)@ + " "@,
{
    proof {
        reveal_strlit(" ");
    }
    v.push(' ');
    assert(v@ =~= old(v)@ + " "@);
}

/// How many tasks fit on a screen of `height` rows: all of them, or `height - 9`.
pub fn visible_task_count(n_tasks: usize, height: u16) -> (n: usize)
    requires
        height >= 9,
    ensures
        n == if n_tasks < height - 9 { n_tasks as int } else { height - 9 },
{
    let room = (height - 9) as usize;
    if n_tasks < room { n_tasks } else { room }
}

} // verus!
