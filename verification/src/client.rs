//! The terminal client: what it shows and how it lays text out.

use crossterm::style::Stylize;
use itertools::Itertools;
use unicode_segmentation::UnicodeSegmentation;
use vstd::prelude::*;
use vstd::slice::slice_subrange;
use crate::text::{
    from_chars, joined, lemma_joined_len, lemma_joined_push, lemma_joined_split,
    lemma_trimmed_start_shape, pieces, split, to_chars, trim, trim_end, trim_start, trimmed,
    trimmed_end, trimmed_start, whitespace,
};

verus! {

/// A line of text handed to the terminal client by the network task.
pub enum Output {
    /// Text sent by the server.
    Text(String),
    /// A diagnostic produced by the client itself.
    Warning(String),
}

/// An `Output` as plain values.
pub enum OutputView {
    Text(Seq<char>),
    Warning(Seq<char>),
}

impl View for Output {
    type V = OutputView;

    open spec fn view(&self) -> OutputView {
        match self {
            Output::Text(text) => OutputView::Text(text@),
            Output::Warning(text) => OutputView::Warning(text@),
        }
    }
}

/// What one read from the socket gave.
pub enum SocketRead {
    /// A text message.
    Text(String),
    /// A message of another kind, as it prints.
    Other(String),
    /// The connection is closed, or was reset without a closing handshake.
    Closed,
    /// Nothing is there to read yet.
    WouldBlock,
    /// Any other error, as it prints.
    Failed(String),
}

/// What the network task does after a read.
pub enum ReadStep {
    /// Hand this over and read again.
    Emit(Output),
    /// Tell the client that the connection is closed and end the task.
    Stop,
    /// Stop reading for now.
    Idle,
    /// Hand this over, close the socket and read again.
    EmitAndClose(Output),
}

/// What one look into the queue of lines to send gave.
pub enum Queued {
    /// A text message.
    Text(String),
    /// A request to close.
    Close,
    /// A message of another kind, as it prints.
    Other(String),
    /// The queue is empty.
    Empty,
    /// The sending side is gone.
    Disconnected,
}

/// What the network task does with what it found in the queue.
pub enum WriteStep {
    /// Send this text and look again.
    Send(String),
    /// Close the socket and look again.
    Close,
    /// Hand this over and look again.
    Warn(Output),
    /// Stop looking for now.
    Idle,
}

/// Decides what follows a read from the socket.
pub fn on_read(read: SocketRead) -> (step: ReadStep)
    ensures
        match read {
            SocketRead::Text(msg) => step matches ReadStep::Emit(out) && out@ == OutputView::Text(
                msg@,
            ),
            SocketRead::Other(shown) => step matches ReadStep::Emit(out) && out@
                == OutputView::Warning("Received unsupported message type: "@ + shown@),
            SocketRead::Closed => step is Stop,
            SocketRead::WouldBlock => step is Idle,
            SocketRead::Failed(shown) => step matches ReadStep::EmitAndClose(out) && out@
                == OutputView::Warning("Error: "@ + shown@),
        },
{
    match read {
        SocketRead::Text(msg) => ReadStep::Emit(Output::Text(msg)),
        SocketRead::Other(shown) => {
            let mut text = "Received unsupported message type: ".to_owned();
            text.append(shown.as_str());
            ReadStep::Emit(Output::Warning(text))
        },
        SocketRead::Closed => ReadStep::Stop,
        SocketRead::WouldBlock => ReadStep::Idle,
        SocketRead::Failed(shown) => {
            let mut text = "Error: ".to_owned();
            text.append(shown.as_str());
            ReadStep::EmitAndClose(Output::Warning(text))
        },
    }
}

/// Decides what follows a look into the queue of lines to send.
pub fn on_queued(queued: Queued) -> (step: WriteStep)
    ensures
        match queued {
            Queued::Text(msg) => step matches WriteStep::Send(text) && text@ == msg@,
            Queued::Close => step is Close,
            Queued::Disconnected => step is Close,
            Queued::Other(shown) => step matches WriteStep::Warn(out) && out@
                == OutputView::Warning("Sent unsupported message type: "@ + shown@),
            Queued::Empty => step is Idle,
        },
{
    match queued {
        Queued::Text(msg) => WriteStep::Send(msg),
        Queued::Close => WriteStep::Close,
        Queued::Disconnected => WriteStep::Close,
        Queued::Other(shown) => {
            let mut text = "Sent unsupported message type: ".to_owned();
            text.append(shown.as_str());
            WriteStep::Warn(Output::Warning(text))
        },
        Queued::Empty => WriteStep::Idle,
    }
}

/// The extended grapheme clusters of `s`, in order, as
/// `UnicodeSegmentation::graphemes(s, true)` yields them.
pub uninterp spec fn grapheme_clusters(s: Seq<char>) -> Seq<Seq<char>>;

/// Each of `parts` as plain characters.
pub open spec fn texts(parts: Seq<String>) -> Seq<Seq<char>> {
    parts.map_values(|p: String| p@)
}

/// `UnicodeSegmentation::graphemes` with `is_extended` set: the clusters of
/// `s` in order. Which clusters these are is left to the name
/// [`grapheme_clusters`]; the iterator hands out consecutive slices of `s`
/// from its start to its end, each at least one character long, and that much
/// is stated.
#[verifier::external_body]
fn graphemes(s: &str) -> (clusters: Vec<String>)
    ensures
        texts(clusters@) == grapheme_clusters(s@),
        joined(texts(clusters@), Seq::empty()) == s@,
        forall|i: int| 0 <= i < clusters.len() ==> (#[trigger] clusters[i])@.len() > 0,
{
    s.graphemes(true).map(|g| g.to_owned()).collect()
}

/// `Itertools::join` over texts: the parts in order with `sep` between each
/// two neighbours.
#[verifier::external_body]
fn join_parts(parts: &[String], sep: &str) -> (s: String)
    ensures
        s@ == joined(texts(parts@), sep@),
{
    parts.iter().join(sep)
}

/// `n` spaces.
pub open spec fn spaces(n: nat) -> Seq<char> {
    Seq::new(n, |i: int| ' ')
}

/// The least number of spaces, counted from `k`, after which `s` has `width`
/// clusters or more; `width` where fewer spaces do not get it there. A space
/// may join the cluster before it, which is why clusters are counted again
/// after every space.
pub open spec fn pad_count(s: Seq<char>, width: nat, k: nat) -> nat
    decreases width - k,
{
    if k >= width || grapheme_clusters(s + spaces(k)).len() >= width {
        k
    } else {
        pad_count(s, width, k + 1)
    }
}

/// `s` with spaces appended until it is `width` clusters long, `width` spaces
/// at most.
pub open spec fn padded(s: Seq<char>, width: nat) -> Seq<char> {
    s + spaces(pad_count(s, width, 0))
}

/// Where a part that is too long is cut: at the last cluster among
/// `clusters[1..=index]` that begins with whitespace, or after `width`
/// clusters where there is none.
pub open spec fn break_at(clusters: Seq<Seq<char>>, width: nat, index: nat) -> nat
    decreases index,
{
    if index == 0 {
        width
    } else if index < clusters.len() && clusters[index as int].len() > 0 && whitespace(
        clusters[index as int][0],
    ) {
        index
    } else {
        break_at(clusters, width, (index - 1) as nat)
    }
}

/// The lines that one part without line breaks is wrapped into, before
/// padding: while the part has more than `width` clusters, a line is cut off
/// its front, without the whitespace at the cut. What is left after a cut is
/// shorter than the part, since no cluster is empty; the function says so to
/// be defined on every text.
pub open spec fn wrapped_part(part: Seq<char>, width: nat) -> Seq<Seq<char>>
    decreases part.len(),
{
    let clusters = grapheme_clusters(part);
    if clusters.len() <= width {
        if part.len() == 0 {
            Seq::empty()
        } else {
            seq![part]
        }
    } else {
        let index = break_at(clusters, width, width) as int;
        let head = trimmed_end(joined(clusters.take(index), Seq::empty()));
        let tail = trimmed_start(joined(clusters.skip(index), Seq::empty()));
        if tail.len() < part.len() {
            seq![head] + wrapped_part(tail, width)
        } else {
            seq![head]
        }
    }
}

/// Each of `lines`, padded to `width`.
pub open spec fn padded_all(lines: Seq<Seq<char>>, width: nat) -> Seq<Seq<char>> {
    Seq::new(lines.len(), |i: int| padded(lines[i], width))
}

/// The padded lines of all of `parts`, in order.
pub open spec fn wrapped_parts(parts: Seq<Seq<char>>, width: nat) -> Seq<Seq<char>>
    decreases parts.len(),
{
    if parts.len() == 0 {
        Seq::empty()
    } else {
        wrapped_parts(parts.drop_last(), width) + padded_all(
            wrapped_part(parts.last(), width),
            width,
        )
    }
}

/// The screen lines that `msg` takes on a screen `width` clusters wide.
pub open spec fn wrapped(msg: Seq<char>, width: nat) -> Seq<Seq<char>> {
    wrapped_parts(pieces(msg, '\n'), width)
}

/// `Stylize::yellow` rendered to text. Whether the rendering holds colour
/// codes depends on the environment, so nothing is said of the result.
#[verifier::external_body]
fn yellow(text: &str) -> String {
    text.yellow().to_string()
}

/// `Stylize::dark_yellow` rendered to text. Whether the rendering holds colour
/// codes depends on the environment, so nothing is said of the result.
#[verifier::external_body]
fn dark_yellow(text: &str) -> String {
    text.dark_yellow().to_string()
}

/// A key press, as far as the client tells keys apart.
pub enum Key {
    Enter,
    Char(char),
    Backspace,
    Esc,
    Left,
    Right,
    Up,
    Down,
}

/// What the event loop is to do after a key press.
pub enum Action {
    /// Go on.
    Wait,
    /// Send this line to the server, then go on.
    Send(String),
    /// Leave the event loop.
    Quit,
}

/// The screen lines of the last `count` of `history`, the newest line first.
pub open spec fn lines_bottom_up(history: Seq<Seq<char>>, width: nat, count: nat) -> Seq<Seq<char>>
    decreases count,
{
    if count == 0 || history.len() == 0 {
        Seq::empty()
    } else {
        wrapped(history.last(), width).reverse() + lines_bottom_up(
            history.drop_last(),
            width,
            (count - 1) as nat,
        )
    }
}

/// The first `count` of `lines`, or all of them where they are fewer.
pub open spec fn at_most(lines: Seq<Seq<char>>, count: nat) -> Seq<Seq<char>> {
    if lines.len() <= count {
        lines
    } else {
        lines.take(count as int)
    }
}

/// What a screen with room for `height` lines of `width` clusters shows of
/// `history`, from the bottom line upwards: the lines of the last `height`
/// entries, and of those the lowest `height`.
pub open spec fn visible(history: Seq<Seq<char>>, width: nat, height: nat) -> Seq<Seq<char>> {
    at_most(lines_bottom_up(history, width, height), height)
}

/// The state of the terminal client.
pub struct Client {
    input: String,
    cursor: usize,
    output_history: Vec<String>,
    input_history: Vec<String>,
    input_history_index: Option<usize>,
}

/// A client as plain values.
pub struct ClientView {
    /// The line being typed.
    pub input: Seq<char>,
    /// The place of the cursor in `input`, counted in characters.
    pub cursor: nat,
    /// The lines shown so far, oldest first.
    pub output_history: Seq<Seq<char>>,
    /// The lines sent so far, oldest first.
    pub input_history: Seq<Seq<char>>,
    /// The sent line that is being recalled, if one is.
    pub input_history_index: Option<nat>,
}

/// Whether `key` ends the line: the enter key, or a line break typed as a
/// character.
pub open spec fn is_enter(key: Key) -> bool {
    key is Enter || key == Key::Char('\n')
}

impl ClientView {
    /// The cursor is in the input, and a recalled line is one that was sent.
    pub open spec fn wf(self) -> bool {
        &&& self.cursor <= self.input.len()
        &&& self.input_history_index matches Some(i) ==> i < self.input_history.len()
    }

    /// The client with the sent line at `index` as its input and the cursor
    /// behind it, or with an empty input where `index` is none.
    pub open spec fn recalled(self, index: Option<nat>) -> ClientView {
        match index {
            Some(i) => ClientView {
                input: self.input_history[i as int],
                cursor: grapheme_clusters(self.input_history[i as int]).len(),
                input_history_index: index,
                ..self
            },
            None => ClientView {
                input: Seq::empty(),
                cursor: 0,
                input_history_index: None,
                ..self
            },
        }
    }

    /// The client after a key that does not end the line.
    pub open spec fn pressed(self, key: Key) -> ClientView {
        match key {
            Key::Char(c) => ClientView {
                input: self.input.insert(self.cursor as int, c),
                cursor: self.cursor + 1,
                ..self
            },
            Key::Backspace => ClientView {
                input: if self.input.len() > 0 {
                    self.input.drop_last()
                } else {
                    self.input
                },
                cursor: if self.cursor > 0 {
                    (self.cursor - 1) as nat
                } else {
                    0
                },
                ..self
            },
            Key::Left => ClientView {
                cursor: if self.cursor > 0 {
                    (self.cursor - 1) as nat
                } else {
                    0
                },
                ..self
            },
            Key::Right => ClientView {
                cursor: if self.cursor < grapheme_clusters(self.input).len() {
                    self.cursor + 1
                } else {
                    self.cursor
                },
                ..self
            },
            Key::Up => self.recalled(
                match self.input_history_index {
                    Some(i) => if i > 0 {
                        Some((i - 1) as nat)
                    } else {
                        Some(i)
                    },
                    None => if self.input_history.len() > 0 {
                        Some((self.input_history.len() - 1) as nat)
                    } else {
                        None
                    },
                },
            ),
            Key::Down => self.recalled(
                match self.input_history_index {
                    Some(i) => if i + 1 < self.input_history.len() {
                        Some(i + 1)
                    } else {
                        None
                    },
                    None => None,
                },
            ),
            Key::Enter => self,
            Key::Esc => self,
        }
    }

    /// The client after the line `line` was sent and echoed as `styled`.
    pub open spec fn entered(self, line: Seq<char>, styled: Seq<char>) -> ClientView {
        ClientView {
            input: Seq::empty(),
            cursor: 0,
            output_history: self.output_history.push("> "@ + styled),
            input_history: self.input_history.push(line),
            input_history_index: None,
        }
    }

    /// The client after new lines were shown.
    pub open spec fn shown(self, lines: Seq<Seq<char>>) -> ClientView {
        ClientView { output_history: self.output_history + lines, ..self }
    }
}

impl View for Client {
    type V = ClientView;

    closed spec fn view(&self) -> ClientView {
        ClientView {
            input: self.input@,
            cursor: self.cursor as nat,
            output_history: self.output_history.deep_view(),
            input_history: self.input_history.deep_view(),
            input_history_index: match self.input_history_index {
                Some(i) => Some(i as nat),
                None => None,
            },
        }
    }
}

/// Clusters are not empty, so a text has at most as many of them as it has
/// characters.
proof fn lemma_cluster_count(parts: Seq<Seq<char>>)
    requires
        forall|i: int| 0 <= i < parts.len() ==> (#[trigger] parts[i]).len() > 0,
    ensures
        joined(parts, Seq::empty()).len() >= parts.len(),
    decreases parts.len(),
{
    if parts.len() > 0 {
        let front = parts.drop_last();
        assert forall|i: int| 0 <= i < front.len() implies (#[trigger] front[i]).len() > 0 by {
            assert(front[i] == parts[i]);
        }
        lemma_cluster_count(front);
        lemma_joined_push(front, parts.last());
        assert(front.push(parts.last()) == parts);
    }
}

/// The number of clusters of `s`.
fn cluster_count(s: &str) -> (n: usize)
    ensures
        n == grapheme_clusters(s@).len(),
        n <= s@.len(),
{
    let clusters = graphemes(s);
    proof {
        assert forall|i: int| 0 <= i < texts(clusters@).len() implies (#[trigger] texts(
            clusters@,
        )[i]).len() > 0 by {
            assert(texts(clusters@)[i] == clusters[i]@);
        }
        lemma_cluster_count(texts(clusters@));
    }
    clusters.len()
}

impl Client {
    /// A client that has shown and sent nothing.
    pub fn new() -> (client: Client)
        ensures
            client@.wf(),
            client@ == (ClientView {
                input: Seq::empty(),
                cursor: 0,
                output_history: Seq::empty(),
                input_history: Seq::empty(),
                input_history_index: None,
            }),
    {
        let client = Client {
            input: String::new(),
            cursor: 0,
            output_history: Vec::new(),
            input_history: Vec::new(),
            input_history_index: None,
        };
        assert(client@.output_history =~= Seq::<Seq<char>>::empty());
        assert(client@.input_history =~= Seq::<Seq<char>>::empty());
        client
    }

    /// The line being typed.
    pub fn input(&self) -> (input: &String)
        ensures
            input@ == self@.input,
    {
        &self.input
    }

    /// The place of the cursor in the input, counted in characters.
    pub fn cursor(&self) -> (cursor: usize)
        ensures
            cursor == self@.cursor,
    {
        self.cursor
    }

    /// The lines shown so far, oldest first.
    pub fn output_history(&self) -> (lines: &Vec<String>)
        ensures
            lines.deep_view() == self@.output_history,
    {
        &self.output_history
    }

    /// The lines sent so far, oldest first.
    pub fn input_history(&self) -> (lines: &Vec<String>)
        ensures
            lines.deep_view() == self@.input_history,
    {
        &self.input_history
    }

    /// The place of the sent line that is being recalled, if one is.
    pub fn input_history_index(&self) -> (index: Option<usize>)
        ensures
            match index {
                Some(i) => self@.input_history_index == Some(i as nat),
                None => self@.input_history_index is None,
            },
    {
        self.input_history_index
    }

    /// Shows `lines` below what is shown.
    pub fn show(&mut self, lines: Vec<String>)
        ensures
            final(self)@ == old(self)@.shown(lines.deep_view()),
            old(self)@.wf() ==> final(self)@.wf(),
    {
        let mut lines = lines;
        let ghost added = lines.deep_view();
        let ghost before = self.output_history.deep_view();
        self.output_history.append(&mut lines);
        assert(self.output_history.deep_view() =~= before + added);
    }

    /// Takes in what the network task hands over: the lines of a text as
    /// they are, the lines of a warning each rendered in yellow.
    pub fn receive(&mut self, output: Output)
        ensures
            old(self)@.wf() ==> final(self)@.wf(),
            match output {
                Output::Text(msg) => final(self)@ == old(self)@.shown(pieces(msg@, '\n')),
                Output::Warning(msg) => exists|lines: Seq<Seq<char>>|
                    lines.len() == pieces(msg@, '\n').len() && final(self)@ == #[trigger] old(
                        self,
                    )@.shown(lines),
            },
    {
        match output {
            Output::Text(msg) => {
                let lines = split(msg.as_str(), '\n');
                self.show(lines);
            },
            Output::Warning(msg) => {
                let lines = split(msg.as_str(), '\n');
                let mut styled: Vec<String> = Vec::new();
                let mut i: usize = 0;
                while i < lines.len()
                    invariant
                        i <= lines.len(),
                        styled.len() == i,
                    decreases lines.len() - i,
                {
                    styled.push(yellow(lines[i].as_str()));
                    i += 1;
                }
                let ghost shown = styled.deep_view();
                self.show(styled);
                assert(final(self)@ == old(self)@.shown(shown));
            },
        }
    }

    /// Ends the line: `line` joins the sent lines, its echo `styled` is
    /// shown behind a prompt, and the input starts over.
    pub fn enter(&mut self, line: String, styled: String) -> (sent: String)
        ensures
            final(self)@.wf(),
            final(self)@ == old(self)@.entered(line@, styled@),
            sent@ == line@,
    {
        let mut echo = "> ".to_owned();
        echo.append(styled.as_str());
        let sent = line.clone();
        let ghost shown = self.output_history.deep_view();
        let ghost lines = self.input_history.deep_view();
        self.input_history.push(line);
        self.output_history.push(echo);
        self.input = String::new();
        self.cursor = 0;
        self.input_history_index = None;
        assert(self.output_history.deep_view() =~= shown.push("> "@ + styled@));
        assert(self.input_history.deep_view() =~= lines.push(line@));
        sent
    }

    /// Makes the sent line at `index` the input, or empties the input.
    fn recall(&mut self, index: Option<usize>)
        requires
            old(self)@.wf(),
            index matches Some(i) ==> i < old(self)@.input_history.len(),
        ensures
            final(self)@.wf(),
            final(self)@ == old(self)@.recalled(
                match index {
                    Some(i) => Some(i as nat),
                    None => None,
                },
            ),
    {
        self.input_history_index = index;
        match index {
            Some(i) => {
                self.input = self.input_history[i].clone();
                self.cursor = cluster_count(self.input.as_str());
                assert(self@.input == old(self)@.input_history[i as int]);
            },
            None => {
                self.input = String::new();
                self.cursor = 0;
            },
        }
    }

    /// Takes in one key press. A key that ends the line trims the input,
    /// sends it and echoes it in dark yellow; escape leaves; every other key
    /// edits the input or recalls a sent line.
    pub fn press(&mut self, key: Key) -> (action: Action)
        requires
            old(self)@.wf(),
        ensures
            final(self)@.wf(),
            is_enter(key) ==> (action matches Action::Send(line) && line@ == trimmed(
                old(self)@.input,
            ) && exists|styled: Seq<char>|
                final(self)@ == #[trigger] old(self)@.entered(trimmed(old(self)@.input), styled)),
            !is_enter(key) ==> final(self)@ == old(self)@.pressed(key) && if key is Esc {
                action is Quit
            } else {
                action is Wait
            },
    {
        match key {
            Key::Enter => Action::Send(self.press_enter()),
            Key::Char(c) => {
                if c == '\n' {
                    return Action::Send(self.press_enter());
                }
                let mut chars = to_chars(self.input.as_str());
                chars.insert(self.cursor, c);
                self.input = from_chars(&chars, 0, chars.len());
                assert(chars@.subrange(0, chars.len() as int) == chars@);
                self.cursor = self.cursor + 1;
                Action::Wait
            },
            Key::Backspace => {
                let mut chars = to_chars(self.input.as_str());
                if chars.len() > 0 {
                    chars.pop();
                    self.input = from_chars(&chars, 0, chars.len());
                    assert(chars@.subrange(0, chars.len() as int) == chars@);
                }
                if self.cursor > 0 {
                    self.cursor = self.cursor - 1;
                }
                Action::Wait
            },
            Key::Esc => Action::Quit,
            Key::Left => {
                if self.cursor > 0 {
                    self.cursor = self.cursor - 1;
                }
                Action::Wait
            },
            Key::Right => {
                if self.cursor < cluster_count(self.input.as_str()) {
                    self.cursor = self.cursor + 1;
                }
                Action::Wait
            },
            Key::Up => {
                let index = match self.input_history_index {
                    Some(i) => if i > 0 {
                        Some(i - 1)
                    } else {
                        Some(i)
                    },
                    None => if self.input_history.len() > 0 {
                        Some(self.input_history.len() - 1)
                    } else {
                        None
                    },
                };
                self.recall(index);
                Action::Wait
            },
            Key::Down => {
                let index = match self.input_history_index {
                    Some(i) => if i < self.input_history.len() - 1 {
                        Some(i + 1)
                    } else {
                        None
                    },
                    None => None,
                };
                self.recall(index);
                Action::Wait
            },
        }
    }

    /// Trims the input, renders its echo and ends the line.
    fn press_enter(&mut self) -> (sent: String)
        ensures
            final(self)@.wf(),
            sent@ == trimmed(old(self)@.input),
            exists|styled: Seq<char>|
                final(self)@ == #[trigger] old(self)@.entered(trimmed(old(self)@.input), styled),
    {
        let line = trim(self.input.as_str());
        let styled = dark_yellow(line.as_str());
        let ghost echo = styled@;
        let sent = self.enter(line, styled);
        assert(final(self)@ == old(self)@.entered(trimmed(old(self)@.input), echo));
        sent
    }

    /// The lines to draw in the output pane, from the bottom line upwards.
    pub fn visible_lines(&self, width: usize, height: usize) -> (lines: Vec<String>)
        requires
            width > 0,
        ensures
            lines.deep_view() == visible(self@.output_history, width as nat, height as nat),
    {
        let ghost history = self.output_history.deep_view();
        let mut lines: Vec<String> = Vec::new();
        let ghost mut all: Seq<Seq<char>> = Seq::empty();
        let mut left: usize = self.output_history.len();
        let mut taken: usize = 0;
        assert(history.take(left as int) == history);
        assert(Seq::<Seq<char>>::empty() + lines_bottom_up(history, width as nat, height as nat)
            == lines_bottom_up(history, width as nat, height as nat));
        while left > 0 && taken < height
            invariant
                width > 0,
                left <= self.output_history.len(),
                taken <= height,
                history == self.output_history.deep_view(),
                lines_bottom_up(history, width as nat, height as nat) == all + lines_bottom_up(
                    history.take(left as int),
                    width as nat,
                    (height - taken) as nat,
                ),
                lines.deep_view() == at_most(all, height as nat),
            decreases left,
        {
            let ghost upper = history.take(left as int);
            assert(upper.last() == self.output_history[left - 1]@);
            assert(upper.drop_last() == history.take(left - 1));
            let wrapped_msg = Self::wrap_lines(self.output_history[left - 1].clone(), width);
            let ghost rev = wrapped_msg.deep_view().reverse();
            let mut k: usize = wrapped_msg.len();
            let ghost before = all;
            while k > 0
                invariant
                    k <= wrapped_msg.len(),
                    rev == wrapped_msg.deep_view().reverse(),
                    all == before + rev.take(wrapped_msg.len() - k),
                    lines.deep_view() == at_most(all, height as nat),
                decreases k,
            {
                let ghost shown = lines.deep_view();
                let ghost next = wrapped_msg[k - 1]@;
                assert(rev[wrapped_msg.len() - k] == next);
                assert(rev.take(wrapped_msg.len() - k + 1) == rev.take(wrapped_msg.len() - k).push(
                    next,
                ));
                if lines.len() < height {
                    lines.push(wrapped_msg[k - 1].clone());
                    assert(lines.deep_view() == shown.push(next));
                }
                proof {
                    all = all.push(next);
                    assert(all == before + rev.take(wrapped_msg.len() - k + 1));
                    assert(lines.deep_view() == at_most(all, height as nat));
                }
                k -= 1;
            }
            assert(rev.take(wrapped_msg.len() as int) == rev);
            assert(before + rev + lines_bottom_up(
                history.take(left - 1),
                width as nat,
                (height - taken - 1) as nat,
            ) == before + (rev + lines_bottom_up(
                history.take(left - 1),
                width as nat,
                (height - taken - 1) as nat,
            )));
            left -= 1;
            taken += 1;
        }
        proof {
            assert(lines_bottom_up(
                history.take(left as int),
                width as nat,
                (height - taken) as nat,
            ) == Seq::<Seq<char>>::empty());
            assert(all + Seq::<Seq<char>>::empty() == all);
        }
        lines
    }

    /// Cuts `msg` into screen lines: at each line break, and wherever a line
    /// would be longer than `width` clusters, there at the last whitespace
    /// that fits or, without one, after `width` clusters. Every line is
    /// padded to `width`.
    pub fn wrap_lines(msg: String, width: usize) -> (lines: Vec<String>)
        requires
            width > 0,
        ensures
            lines.deep_view() == wrapped(msg@, width as nat),
    {
        let parts = split(msg.as_str(), '\n');
        let mut lines: Vec<String> = Vec::new();
        let mut i: usize = 0;
        assert(parts.deep_view().take(0) == Seq::<Seq<char>>::empty());
        while i < parts.len()
            invariant
                i <= parts.len(),
                width > 0,
                lines.deep_view() == wrapped_parts(parts.deep_view().take(i as int), width as nat),
            decreases parts.len() - i,
        {
            assert(parts.deep_view().take(i + 1).drop_last() == parts.deep_view().take(i as int));
            assert(parts.deep_view().take(i + 1).last() == parts[i as int]@);
            let cut = Self::wrap_part(parts[i].clone(), width);
            let ghost before = lines.deep_view();
            let mut k: usize = 0;
            while k < cut.len()
                invariant
                    k <= cut.len(),
                    cut.deep_view() == wrapped_part(parts[i as int]@, width as nat),
                    lines.deep_view() == before + padded_all(cut.deep_view(), width as nat).take(
                        k as int,
                    ),
                decreases cut.len() - k,
            {
                let ghost so_far = lines.deep_view();
                let line = Self::pad_line(cut[k].clone(), width);
                lines.push(line);
                assert(lines.deep_view() == so_far.push(padded(cut[k as int]@, width as nat)));
                assert(padded_all(cut.deep_view(), width as nat).take(k + 1) == padded_all(
                    cut.deep_view(),
                    width as nat,
                ).take(k as int).push(padded(cut[k as int]@, width as nat)));
                k += 1;
            }
            assert(padded_all(cut.deep_view(), width as nat).take(cut.len() as int) == padded_all(
                cut.deep_view(),
                width as nat,
            ));
            i += 1;
        }
        assert(parts.deep_view().take(parts.len() as int) == parts.deep_view());
        lines
    }

    /// The lines of one part without line breaks, not yet padded.
    fn wrap_part(text: String, width: usize) -> (lines: Vec<String>)
        requires
            width > 0,
        ensures
            lines.deep_view() == wrapped_part(text@, width as nat),
    {
        let ghost whole = text@;
        let mut part = text;
        let mut lines: Vec<String> = Vec::new();
        loop
            invariant
                width > 0,
                whole == text@,
                lines.deep_view() + wrapped_part(part@, width as nat) == wrapped_part(
                    whole,
                    width as nat,
                ),
            decreases part@.len(),
        {
            let clusters = graphemes(part.as_str());
            let ghost cl = texts(clusters@);
            let ghost current = part@;
            assert(cl.len() == clusters.len());
            if clusters.len() <= width {
                let ghost before = lines.deep_view();
                if part.as_str().unicode_len() > 0 {
                    lines.push(part);
                    assert(lines.deep_view() == before + seq![current]);
                    assert(wrapped_part(current, width as nat) == seq![current]);
                } else {
                    assert(wrapped_part(current, width as nat) == Seq::<Seq<char>>::empty());
                    assert(before + Seq::<Seq<char>>::empty() == before);
                }
                return lines;
            }
            let mut index: usize = width;
            while index > 0 && !Self::starts_with_whitespace(&clusters[index])
                invariant
                    index <= width < clusters.len(),
                    cl == texts(clusters@),
                    forall|j: int| 0 <= j < clusters.len() ==> (#[trigger] clusters[j])@.len() > 0,
                    break_at(cl, width as nat, width as nat) == break_at(
                        cl,
                        width as nat,
                        index as nat,
                    ),
                decreases index,
            {
                assert(cl[index as int] == clusters[index as int]@);
                index -= 1;
            }
            if index == 0 {
                index = width;
            } else {
                assert(cl[index as int] == clusters[index as int]@);
            }
            assert(index == break_at(cl, width as nat, width as nat));
            proof {
                reveal_strlit("");
            }
            let head = join_parts(slice_subrange(clusters.as_slice(), 0, index), "");
            let tail = join_parts(
                slice_subrange(clusters.as_slice(), index, clusters.len()),
                "",
            );
            let line = trim_end(head.as_str());
            let rest = trim_start(tail.as_str());
            proof {
                assert(""@ == Seq::<char>::empty());
                assert(texts(clusters@.subrange(0, index as int)) == cl.take(index as int));
                assert(texts(clusters@.subrange(index as int, clusters.len() as int)) == cl.skip(
                    index as int,
                ));
                lemma_joined_split(cl, index as int);
                lemma_joined_len(cl.take(index as int));
                assert(cl.take(index as int)[0] == clusters[0]@);
                lemma_trimmed_start_shape(tail@);
                assert(rest@.len() < part@.len());
                let ghost before = lines.deep_view();
                assert(wrapped_part(part@, width as nat) == seq![line@] + wrapped_part(
                    rest@,
                    width as nat,
                ));
                assert(before.push(line@) + wrapped_part(rest@, width as nat) == before + (
                seq![line@] + wrapped_part(rest@, width as nat)));
            }
            let ghost before = lines.deep_view();
            lines.push(line);
            assert(lines.deep_view() == before.push(line@));
            part = rest;
        }
    }

    /// Whether the first character of `cluster` is whitespace.
    fn starts_with_whitespace(cluster: &String) -> (yes: bool)
        requires
            cluster@.len() > 0,
        ensures
            yes == whitespace(cluster@[0]),
    {
        cluster.as_str().get_char(0).is_whitespace()
    }

    /// Appends spaces to `msg` until it is `width` clusters long, one space
    /// at a time and `width` spaces at most.
    pub fn pad_line(msg: String, width: usize) -> (line: String)
        ensures
            line@ == padded(msg@, width as nat),
    {
        let mut line = msg;
        let mut pushed: usize = 0;
        assert(line@ == msg@ + spaces(0));
        while pushed < width && graphemes(line.as_str()).len() < width
            invariant
                pushed <= width,
                line@ == msg@ + spaces(pushed as nat),
                pad_count(msg@, width as nat, 0) == pad_count(msg@, width as nat, pushed as nat),
            decreases width - pushed,
        {
            line.push(' ');
            assert(line@ == msg@ + spaces((pushed + 1) as nat));
            pushed += 1;
        }
        line
    }
}

} // verus!
