//! The commands of the console.
use vstd::prelude::*;
use vstd::string::StringExecFns;

use crate::config::Config;
use crate::console::{Console, ConsoleColor, ConsoleMessage};
use crate::kinds::{DefinitionKind, ProvinceKind, ViewMode};
use crate::text::{parse_unsigned, unsigned_of};
use crate::records::texts;
use crate::text::{pad_left, pad_right, padded_left, padded_right, split_words, str_equal, words_of};

verus! {

/// What a line of the console asks for.
#[derive(Debug)]
pub enum Command {
    Help,
    Commands,
    Controls,
    /// To select the brush named.
    Select(String),
    /// `select` without the name of a brush.
    SelectNothing,
    /// A command that is not known.
    Invalid(String),
    /// No command.
    Empty,
}

/// What a line of the console asks for, as a value.
pub enum CommandView {
    Help,
    Commands,
    Controls,
    Select(Seq<char>),
    SelectNothing,
    Invalid(Seq<char>),
    Empty,
}

impl View for Command {
    type V = CommandView;

    open spec fn view(&self) -> CommandView {
        match self {
            Command::Help => CommandView::Help,
            Command::Commands => CommandView::Commands,
            Command::Controls => CommandView::Controls,
            Command::Select(arg) => CommandView::Select(arg@),
            Command::SelectNothing => CommandView::SelectNothing,
            Command::Invalid(name) => CommandView::Invalid(name@),
            Command::Empty => CommandView::Empty,
        }
    }
}

/// What the words of a line ask for: the first word is the command, the
/// second what it is to work on.
pub open spec fn command_of(words: Seq<Seq<char>>) -> CommandView {
    if words.len() == 0 {
        CommandView::Empty
    } else if words[0] == "help"@ {
        CommandView::Help
    } else if words[0] == "commands"@ {
        CommandView::Commands
    } else if words[0] == "controls"@ {
        CommandView::Controls
    } else if words[0] == "select"@ {
        if words.len() > 1 {
            CommandView::Select(words[1])
        } else {
            CommandView::SelectNothing
        }
    } else {
        CommandView::Invalid(words[0])
    }
}

/// Reads what the words of a line ask for.
pub fn parse_words(words: &Vec<String>) -> (c: Command)
    ensures
        c@ == command_of(texts(words@)),
{
    if words.len() == 0 {
        return Command::Empty;
    }
    let first = words[0].as_str();
    if str_equal(first, "help") {
        Command::Help
    } else if str_equal(first, "commands") {
        Command::Commands
    } else if str_equal(first, "controls") {
        Command::Controls
    } else if str_equal(first, "select") {
        if words.len() > 1 {
            Command::Select(words[1].clone())
        } else {
            Command::SelectNothing
        }
    } else {
        Command::Invalid(words[0].clone())
    }
}

/// Reads what a line of the console asks for.
pub fn line(text: &str) -> (c: Command)
    ensures
        c@ == command_of(words_of(text@)),
{
    let words = split_words(text);
    parse_words(&words)
}

/// A name and what it stands for, as a line of a list: the name to the
/// left in 24 columns, the rest to the right in 32.
pub open spec fn entry_text(name: Seq<char>, description: Seq<char>) -> Seq<char> {
    padded_right(name, 24) + padded_left(description, 32)
}

/// A name and what it stands for, as a line of a list.
pub fn entry(name: &str, description: &str) -> (s: String)
    ensures
        s@ == entry_text(name@, description@),
{
    let mut s = pad_right(name, 24);
    s.append(pad_left(description, 32).as_str());
    s
}

/// The names and descriptions of a list.
pub open spec fn entries_of(list: Seq<(&'static str, &'static str)>) -> Seq<(Seq<char>, Seq<char>)> {
    Seq::new(list.len(), |i: int| (list[i].0@, list[i].1@))
}

/// The commands, each with what it does.
pub open spec fn command_entries() -> Seq<(Seq<char>, Seq<char>)> {
    seq![
        ("help"@, "Basic help"@),
        ("commands"@, "Shows the commands list"@),
        ("controls"@, "Shows the controls list"@),
    ]
}

/// The keys, each with what it does.
pub open spec fn control_entries() -> Seq<(Seq<char>, Seq<char>)> {
    seq![
        ("1"@, "Color map mode"@),
        ("2"@, "Terrain map mode"@),
        ("3"@, "Type map mode"@),
        ("4"@, "Continent map mode"@),
        ("5"@, "Coastal map mode"@),
        ("MOUSE1 / LMB"@, "Paint with selected brush"@),
        ("MOUSE2 / RMB"@, "Pan camera"@),
        ("MOUSE3 / MMB"@, "Pick brush from map"@),
        ("SCROLL"@, "Zoom map view"@),
        ("SHIFT + SCROLL"@, "Resize brush"@),
        ("CTRL + Z"@, "Undo"@),
        ("CTRL + Y"@, "Redo"@),
        ("CTRL + SHIFT + S"@, "Save-As"@),
        ("CTRL + SHIFT + ALT + S"@, "Save-As Archive"@),
        ("CTRL + S"@, "Save"@),
        ("CTRL + O"@, "Open"@),
        ("CTRL + ALT + O"@, "Open Archive"@),
        ("SPACEBAR"@, "Cycle brush options"@),
        ("SHIFT + C"@, "Re-calculate coastal provinces"@),
        ("SHIFT + R"@, "Re-color all provinces"@),
        ("SHIFT + P"@, "Display map errors/warnings"@),
        ("H"@, "Reset camera view"@),
        ("~"@, "Toggle console"@),
    ]
}

/// The commands, each with what it does.
pub fn commands_list() -> (list: Vec<(&'static str, &'static str)>)
    ensures
        entries_of(list@) == command_entries(),
{
    let list =
    vec![
        ("help", "Basic help"),
        ("commands", "Shows the commands list"),
        ("controls", "Shows the controls list"),
    ];
    proof {
        assert(entries_of(list@) =~= command_entries());
    }
    list
}

/// The keys, each with what it does.
pub fn controls_list() -> (list: Vec<(&'static str, &'static str)>)
    ensures
        entries_of(list@) == control_entries(),
{
    let list = vec![
        ("1", "Color map mode"),
        ("2", "Terrain map mode"),
        ("3", "Type map mode"),
        ("4", "Continent map mode"),
        ("5", "Coastal map mode"),
        ("MOUSE1 / LMB", "Paint with selected brush"),
        ("MOUSE2 / RMB", "Pan camera"),
        ("MOUSE3 / MMB", "Pick brush from map"),
        ("SCROLL", "Zoom map view"),
        ("SHIFT + SCROLL", "Resize brush"),
        ("CTRL + Z", "Undo"),
        ("CTRL + Y", "Redo"),
        ("CTRL + SHIFT + S", "Save-As"),
        ("CTRL + SHIFT + ALT + S", "Save-As Archive"),
        ("CTRL + S", "Save"),
        ("CTRL + O", "Open"),
        ("CTRL + ALT + O", "Open Archive"),
        ("SPACEBAR", "Cycle brush options"),
        ("SHIFT + C", "Re-calculate coastal provinces"),
        ("SHIFT + R", "Re-color all provinces"),
        ("SHIFT + P", "Display map errors/warnings"),
        ("H", "Reset camera view"),
        ("~", "Toggle console"),
    ];
    proof {
        assert(entries_of(list@) =~= control_entries());
    }
    list
}

/// Whether a message of the program says a text, shown from `now` on for
/// the time given.
pub open spec fn says(m: ConsoleMessage, text: Seq<char>, color: ConsoleColor, now: u64, lifetime: u64) -> bool {
    m.text@ == text && m.color == color && m.epoch == now && m.max_lifetime == lifetime
}

/// Whether the newest messages of a console are the given texts, as
/// plain messages of the program shown from `now` on, behind the messages
/// that were there.
pub open spec fn said(
    before: Seq<ConsoleMessage>,
    after: Seq<ConsoleMessage>,
    texts: Seq<Seq<char>>,
    now: u64,
    lifetime: u64,
) -> bool {
    &&& after.len() == before.len() + texts.len()
    &&& after.take(before.len() as int) == before
    &&& forall|i: int|
        0 <= i < texts.len() ==> says(
            #[trigger] after[before.len() as int + i],
            texts[i],
            ConsoleColor::System,
            now,
            lifetime,
        )
}

/// The lines of a list of names and descriptions.
pub open spec fn entry_texts(entries: Seq<(Seq<char>, Seq<char>)>) -> Seq<Seq<char>> {
    Seq::new(entries.len(), |i: int| entry_text(entries[i].0, entries[i].1))
}

/// Where help is found.
pub open spec fn help_texts() -> Seq<Seq<char>> {
    seq![
        "Use the 'commands' command for a list of all commands"@,
        "Use the 'controls' command for a list of all controls and hotkeys"@,
    ]
}

/// Shows some texts as plain messages of the program.
fn show_texts(console: &mut Console, texts: &Vec<String>, now: u64)
    ensures
        final(console).line() == old(console).line(),
        final(console).lifetime() == old(console).lifetime(),
        final(console).wf() == old(console).wf(),
        said(
            old(console).messages(),
            final(console).messages(),
            crate::records::texts(texts@),
            now,
            old(console).lifetime(),
        ),
{
    let ghost before = console.messages();
    let ghost all = crate::records::texts(texts@);
    let ghost lifetime = console.lifetime();
    let mut shown: usize = 0;
    proof {
        assert(console.messages().take(before.len() as int) =~= before);
    }
    while shown < texts.len()
        invariant
            shown <= texts@.len(),
            all == crate::records::texts(texts@),
            console.line() == old(console).line(),
            console.lifetime() == lifetime,
            console.wf() == old(console).wf(),
            before == old(console).messages(),
            said(before, console.messages(), all.take(shown as int), now, lifetime),
        decreases texts@.len() - shown,
    {
        let ghost mid = console.messages();
        let text = texts[shown].clone();
        console.push_system(Ok(text), now);
        proof {
            let after = console.messages();
            assert(after.drop_last() == mid);
            assert(after.take(before.len() as int) =~= before) by {
                assert forall|i: int| 0 <= i < before.len() implies after[i] == before[i] by {
                    assert(after[i] == mid[i]);
                    assert(mid.take(before.len() as int)[i] == mid[i]);
                }
            }
            assert forall|i: int| 0 <= i < shown + 1 implies says(
                #[trigger] after[before.len() as int + i],
                all.take(shown + 1)[i],
                ConsoleColor::System,
                now,
                lifetime,
            ) by {
                if i < shown {
                    assert(after[before.len() as int + i] == mid[before.len() as int + i]);
                    assert(all.take(shown as int)[i] == all.take(shown + 1)[i]);
                } else {
                    assert(after[before.len() as int + i] == after.last());
                    assert(all.take(shown + 1)[i] == texts@[shown as int]@);
                }
            }
        }
        shown = shown + 1;
    }
    proof {
        assert(all.take(shown as int) =~= all);
    }
}

/// Shows where help is found.
pub fn help(console: &mut Console, now: u64)
    ensures
        final(console).line() == old(console).line(),
        final(console).lifetime() == old(console).lifetime(),
        final(console).wf() == old(console).wf(),
        said(old(console).messages(), final(console).messages(), help_texts(), now, old(console).lifetime()),
{
    let texts = vec![
        "Use the 'commands' command for a list of all commands".to_owned(),
        "Use the 'controls' command for a list of all controls and hotkeys".to_owned(),
    ];
    proof {
        assert(crate::records::texts(texts@) =~= help_texts());
    }
    show_texts(console, &texts, now);
}

/// Shows a list of names, each with what it stands for.
fn show_list(console: &mut Console, list: &Vec<(&'static str, &'static str)>, now: u64)
    ensures
        final(console).line() == old(console).line(),
        final(console).lifetime() == old(console).lifetime(),
        final(console).wf() == old(console).wf(),
        said(
            old(console).messages(),
            final(console).messages(),
            entry_texts(entries_of(list@)),
            now,
            old(console).lifetime(),
        ),
{
    let mut texts: Vec<String> = Vec::new();
    let mut n: usize = 0;
    while n < list.len()
        invariant
            n <= list@.len(),
            crate::records::texts(texts@) == entry_texts(entries_of(list@)).take(n as int),
        decreases list@.len() - n,
    {
        let pair = list[n];
        let ghost was = crate::records::texts(texts@);
        texts.push(entry(pair.0, pair.1));
        proof {
            assert(crate::records::texts(texts@) =~= was.push(entry_text(pair.0@, pair.1@)));
            assert(crate::records::texts(texts@) =~= entry_texts(entries_of(list@)).take(n + 1));
        }
        n += 1;
    }
    proof {
        assert(entry_texts(entries_of(list@)).take(n as int) =~= entry_texts(entries_of(list@)));
    }
    show_texts(console, &texts, now);
}

/// Shows the commands.
pub fn commands(console: &mut Console, now: u64)
    ensures
        final(console).line() == old(console).line(),
        final(console).lifetime() == old(console).lifetime(),
        final(console).wf() == old(console).wf(),
        said(
            old(console).messages(),
            final(console).messages(),
            entry_texts(command_entries()),
            now,
            old(console).lifetime(),
        ),
{
    let list = commands_list();
    show_list(console, &list, now);
}

/// Shows the keys.
pub fn controls(console: &mut Console, now: u64)
    ensures
        final(console).line() == old(console).line(),
        final(console).lifetime() == old(console).lifetime(),
        final(console).wf() == old(console).wf(),
        said(
            old(console).messages(),
            final(console).messages(),
            entry_texts(control_entries()),
            now,
            old(console).lifetime(),
        ),
{
    let list = controls_list();
    show_list(console, &list, now);
}

/// The brush that a `select` command names.
#[derive(Debug)]
pub enum Selection {
    Kind(DefinitionKind),
    Terrain(String),
    Continent(u16),
}

/// The brush that a `select` command names, as a value.
pub enum SelectionView {
    Kind(DefinitionKind),
    Terrain(Seq<char>),
    Continent(u16),
}

impl View for Selection {
    type V = SelectionView;

    open spec fn view(&self) -> SelectionView {
        match self {
            Selection::Kind(kind) => SelectionView::Kind(*kind),
            Selection::Terrain(name) => SelectionView::Terrain(name@),
            Selection::Continent(n) => SelectionView::Continent(*n),
        }
    }
}

/// What `select` makes of a name in a view: in the view by kind, the kind
/// of that name; in the view by terrain, a terrain that the settings
/// know; in the view by continent, a number; in the other views nothing
/// can be selected.
pub open spec fn selected(view_mode: ViewMode, config: Config, arg: Seq<char>) -> Result<
    SelectionView,
    Seq<char>,
> {
    match view_mode {
        ViewMode::Color => Err("Use SPACEBAR to select a new color instead"@),
        ViewMode::Kind => match DefinitionKind::parsed(arg) {
            Ok(kind) => Ok(SelectionView::Kind(kind)),
            Err(_) => Err("Invalid type, expected one of 'land', 'sea', or 'lake'"@),
        },
        ViewMode::Terrain => if config.terrain_of(arg) is Some {
            Ok(SelectionView::Terrain(arg))
        } else {
            Err("Invalid terrain"@)
        },
        ViewMode::Continent => match unsigned_of(arg, u16::MAX as nat) {
            Some(n) => Ok(SelectionView::Continent(n as u16)),
            None => Err("Invalid continent, expected integer"@),
        },
        ViewMode::Coastal => Err("Coastal map mode does not support painting"@),
        ViewMode::Adjacencies => Err("Use SPACEBAR to select a new connection instead"@),
    }
}

/// Selects the brush of a name in a view, or says why there is none.
pub fn select(view_mode: ViewMode, config: &Config, arg: &str) -> (r: Result<
    Selection,
    &'static str,
>)
    ensures
        match r {
            Ok(s) => selected(view_mode, *config, arg@) == Ok::<SelectionView, Seq<char>>(s@),
            Err(e) => selected(view_mode, *config, arg@) == Err::<SelectionView, Seq<char>>(e@),
        },
{
    match view_mode {
        ViewMode::Color => Err("Use SPACEBAR to select a new color instead"),
        ViewMode::Kind => match DefinitionKind::parse(arg) {
            Ok(kind) => Ok(Selection::Kind(kind)),
            Err(_) => Err("Invalid type, expected one of 'land', 'sea', or 'lake'"),
        },
        ViewMode::Terrain => if config.has_terrain(arg) {
            Ok(Selection::Terrain(arg.to_owned()))
        } else {
            Err("Invalid terrain")
        },
        ViewMode::Continent => match parse_unsigned(arg, 0xffff) {
            Some(n) => Ok(Selection::Continent(n as u16)),
            None => Err("Invalid continent, expected integer"),
        },
        ViewMode::Coastal => Err("Coastal map mode does not support painting"),
        ViewMode::Adjacencies => Err("Use SPACEBAR to select a new connection instead"),
    }
}

/// What a command says to the console when it cannot be done; nothing
/// for a command that can.
pub open spec fn refusal(command: CommandView, view_mode: Option<ViewMode>, config: Config)
    -> Option<Seq<char>> {
    match command {
        CommandView::Select(arg) => match view_mode {
            Some(mode) => match selected(mode, config, arg) {
                Ok(_) => None,
                Err(e) => Some(e),
            },
            None => Some("No map loaded"@),
        },
        CommandView::SelectNothing => Some("Command 'select' takes 2 arguments, found 1"@),
        CommandView::Invalid(name) => Some("Invalid command '"@ + name + "'"@),
        CommandView::Empty => Some("No command"@),
        _ => None,
    }
}

/// Does what a command asks of the console, and returns the brush that it
/// selects, if it selects one. `view_mode` is the view of the map, if a
/// map is loaded. A command that cannot be done says so on the console.
pub fn run(command: Command, console: &mut Console, view_mode: Option<ViewMode>, config: &Config, now: u64)
    -> (r: Option<Selection>)
    ensures
        final(console).line() == old(console).line(),
        final(console).lifetime() == old(console).lifetime(),
        final(console).wf() == old(console).wf(),
        match command@ {
            CommandView::Help => r is None && said(
                old(console).messages(),
                final(console).messages(),
                help_texts(),
                now,
                old(console).lifetime(),
            ),
            CommandView::Commands => r is None && said(
                old(console).messages(),
                final(console).messages(),
                entry_texts(command_entries()),
                now,
                old(console).lifetime(),
            ),
            CommandView::Controls => r is None && said(
                old(console).messages(),
                final(console).messages(),
                entry_texts(control_entries()),
                now,
                old(console).lifetime(),
            ),
            _ => match refusal(command@, view_mode, *config) {
                Some(e) => {
                    &&& r is None
                    &&& final(console).messages().drop_last() == old(console).messages()
                    &&& final(console).messages().len() == old(console).messages().len() + 1
                    &&& says(
                        final(console).messages().last(),
                        e,
                        ConsoleColor::SystemError,
                        now,
                        old(console).lifetime(),
                    )
                },
                None => {
                    &&& final(console).messages() == old(console).messages()
                    &&& r is Some
                    &&& command@ matches CommandView::Select(arg)
                    &&& selected(view_mode.unwrap(), *config, arg) == Ok::<
                        SelectionView,
                        Seq<char>,
                    >(r.unwrap()@)
                },
            },
        },
{
    match command {
        Command::Help => {
            help(console, now);
            None
        },
        Command::Commands => {
            commands(console, now);
            None
        },
        Command::Controls => {
            controls(console, now);
            None
        },
        Command::Select(arg) => match view_mode {
            Some(mode) => match select(mode, config, arg.as_str()) {
                Ok(selection) => Some(selection),
                Err(e) => {
                    console.push_system(Err(e.to_owned()), now);
                    None
                },
            },
            None => {
                console.push_system(Err("No map loaded".to_owned()), now);
                None
            },
        },
        Command::SelectNothing => {
            console.push_system(
                Err("Command 'select' takes 2 arguments, found 1".to_owned()),
                now,
            );
            None
        },
        Command::Invalid(name) => {
            let mut text = String::from_str("Invalid command '");
            text.append(name.as_str());
            text.append("'");
            console.push_system(Err(text), now);
            None
        },
        Command::Empty => {
            console.push_system(Err("No command".to_owned()), now);
            None
        },
    }
}

} // verus!
