//! Reads the lines of a session transcript: each is a JSON object of one of
//! several shapes, from which a record of one shape is taken for searching.

use vstd::prelude::*;
use crate::clock;
use crate::clock::Timestamp;
use crate::json;
use crate::json::Json;
use crate::paths;
use crate::text;
use crate::text::{chars_of, is_nothing, join, owned, owned_or, same};

verus! {

/// A searchable record taken from one line of a transcript.
#[derive(Debug, Clone, PartialEq)]
pub struct IndexableEvent {
    pub session_id: String,
    pub project: String,
    pub event_role: String,
    pub timestamp: Option<Timestamp>,
    pub cwd: Option<String>,
    pub git_branch: Option<String>,
    pub file_path: String,
    pub event_index: u64,
    pub text: String,
}

/// What a record says.
#[verifier::ext_equal]
pub struct EventView {
    pub session_id: Seq<char>,
    pub project: Seq<char>,
    pub event_role: Seq<char>,
    pub timestamp: Option<Timestamp>,
    pub cwd: Option<Seq<char>>,
    pub git_branch: Option<Seq<char>>,
    pub file_path: Seq<char>,
    pub event_index: u64,
    pub text: Seq<char>,
}

impl View for IndexableEvent {
    type V = EventView;

    open spec fn view(&self) -> EventView {
        EventView {
            session_id: self.session_id@,
            project: self.project@,
            event_role: self.event_role@,
            timestamp: self.timestamp,
            cwd: text::view_of(self.cwd),
            git_branch: text::view_of(self.git_branch),
            file_path: self.file_path@,
            event_index: self.event_index,
            text: self.text@,
        }
    }
}

/// Why a line is not a record: it is not JSON, and this is what is wrong with it.
#[derive(Debug, Clone)]
pub struct Malformed(pub String);

/// What one block of a message's content adds to its text: itself where it is a
/// text; otherwise the text it carries, what was thought, and for the use of a
/// tool the tool's name and input.
pub open spec fn block_parts(block: json::Tree) -> Seq<Seq<char>> {
    match block {
        json::Tree::Text(s) => seq![s],
        _ => one(json::text_member(block, "text"@)) + one(json::text_member(block, "thinking"@))
            + match json::text_member(block, "name"@) {
            Some(name) => seq!["[tool: "@ + name + "]"@] + match json::member(block, "input"@) {
                Some(input) => seq![json::json_compact(input)],
                None => seq![],
            },
            None => seq![],
        },
    }
}

/// A text, if there is one, as a list.
pub open spec fn one(s: Option<Seq<char>>) -> Seq<Seq<char>> {
    match s {
        Some(t) => seq![t],
        None => seq![],
    }
}

/// A text, if there is one that is not empty, as a list.
pub open spec fn one_not_empty(s: Option<Seq<char>>) -> Seq<Seq<char>> {
    match s {
        Some(t) => if t.len() > 0 {
            seq![t]
        } else {
            seq![]
        },
        None => seq![],
    }
}

/// What the blocks of a message's content add to its text, in order.
pub open spec fn content_parts(blocks: Seq<json::Tree>) -> Seq<Seq<char>>
    decreases blocks.len(),
{
    if blocks.len() == 0 {
        seq![]
    } else {
        content_parts(blocks.drop_last()) + block_parts(blocks.last())
    }
}

/// The text of a message: its content where that is a text, or what the blocks of
/// its content add, a line each.
pub open spec fn message_text(msg: Option<json::Tree>) -> Seq<char> {
    match msg {
        Some(m) => match json::member(m, "content"@) {
            Some(json::Tree::Text(s)) => s,
            Some(json::Tree::Array(blocks)) => text::joined(content_parts(blocks), "\n"@),
            _ => seq![],
        },
        None => seq![],
    }
}

/// The text of an attachment: its content, and what was written to the standard
/// output and error where that is not empty.
pub open spec fn attachment_text(attachment: Option<json::Tree>) -> Seq<char> {
    match attachment {
        Some(a) => text::joined(
            one(json::text_member(a, "content"@)) + one_not_empty(
                json::text_member(a, "stdout"@),
            ) + one_not_empty(json::text_member(a, "stderr"@)),
            "\n"@,
        ),
        None => seq![],
    }
}

/// The searchable text of a record with the given role.
pub open spec fn searchable_text(t: json::Tree, role: Seq<char>) -> Seq<char> {
    if role == "user"@ || role == "assistant"@ {
        message_text(json::member(t, "message"@))
    } else if role == "attachment"@ {
        attachment_text(json::member(t, "attachment"@))
    } else {
        seq![]
    }
}

/// The role of a record.
pub open spec fn role_of(t: json::Tree) -> Seq<char> {
    match json::text_member(t, "type"@) {
        Some(role) => role,
        None => "unknown"@,
    }
}

/// When a record was written, where it says so.
pub open spec fn timestamp_of(t: json::Tree) -> Option<Timestamp> {
    match json::text_member(t, "timestamp"@) {
        Some(s) => clock::rfc3339(s),
        None => None,
    }
}

/// A text without the dashes at its front.
pub open spec fn without_dashes(s: Seq<char>) -> Seq<char>
    decreases s.len(),
{
    if s.len() > 0 && s[0] == '-' {
        without_dashes(s.drop_first())
    } else {
        s
    }
}

/// A text with one character in the place of another.
pub open spec fn swapped(s: Seq<char>, from: char, to: char) -> Seq<char> {
    s.map_values(
        |c: char|
            if c == from {
                to
            } else {
                c
            },
    )
}

/// The path that a transcript directory is named after: the dashes at the front
/// left out, and every other dash read as a slash.
pub open spec fn label_of(dir: Seq<char>) -> Seq<char> {
    swapped(without_dashes(dir), '-', '/')
}

/// The label of the project that a transcript file belongs to.
pub open spec fn project_label(path: Seq<char>) -> Seq<char> {
    match paths::parent_name_of(path) {
        Some(dir) => label_of(dir),
        None => seq![],
    }
}

/// The record on a line that holds the given document, unless there is nothing on
/// it to search for.
pub open spec fn event_of(t: json::Tree, path: Seq<char>, index: u64) -> Option<EventView> {
    let body = searchable_text(t, role_of(t));
    if text::is_blank(body) {
        None
    } else {
        Some(
            EventView {
                session_id: match json::text_member(t, "sessionId"@) {
                    Some(s) => s,
                    None => seq![],
                },
                project: project_label(path),
                event_role: role_of(t),
                timestamp: timestamp_of(t),
                cwd: json::text_member(t, "cwd"@),
                git_branch: json::text_member(t, "gitBranch"@),
                file_path: path,
                event_index: index,
                text: body,
            },
        )
    }
}

/// What an optional record says.
pub open spec fn event_view(e: Option<IndexableEvent>) -> Option<EventView> {
    match e {
        Some(ev) => Some(ev@),
        None => None,
    }
}

/// Reads one line of a transcript. A line without searchable text has no record.
pub fn parse_line(line: &str, file_path: &str, event_index: u64) -> (r: Result<
    Option<IndexableEvent>,
    Malformed,
>)
    ensures
        match r {
            Ok(e) => json::json_read(line@) matches Some(t) && event_view(e) == event_of(
                t,
                file_path@,
                event_index,
            ),
            Err(e) => json::json_read(line@) is None && e.0@ == json::json_error(line@),
        },
        r matches Ok(Some(e)) ==> (e.timestamp matches Some(t) ==> t.valid()),
{
    match Json::parse(line) {
        Ok(v) => Ok(event_from_json(&v, file_path, event_index)),
        Err(why) => Err(Malformed(why)),
    }
}

/// The record that a line with the given document holds, if any.
pub fn event_from_json(v: &Json, file_path: &str, event_index: u64) -> (r: Option<IndexableEvent>)
    ensures
        event_view(r) == event_of(json::tree(*v), file_path@, event_index),
        r matches Some(e) ==> (e.timestamp matches Some(t) ==> t.valid()),
{
    let event_role = owned_or(v.text("type"), "unknown");
    let body = extract_text(v, event_role.as_str());
    if text::blank(body.as_str()) {
        return None;
    }
    let timestamp: Option<Timestamp> = match v.text("timestamp") {
        Some(s) => clock::parse_rfc3339(s),
        None => None,
    };
    let session_id = owned_or(v.text("sessionId"), "");
    proof {
        reveal_strlit("");
        assert(""@ =~= seq![]);
    }
    Some(
        IndexableEvent {
            session_id,
            project: project_from_path(file_path),
            event_role,
            timestamp,
            cwd: owned(v.text("cwd")),
            git_branch: owned(v.text("gitBranch")),
            file_path: file_path.to_string(),
            event_index,
            text: body,
        },
    )
}

/// The searchable text of a record with the given role.
pub fn extract_text(v: &Json, event_role: &str) -> (r: String)
    ensures
        r@ == searchable_text(json::tree(*v), event_role@),
{
    if same(event_role, "user") || same(event_role, "assistant") {
        extract_message_content(v.get("message"))
    } else if same(event_role, "attachment") {
        extract_attachment(v.get("attachment"))
    } else {
        String::new()
    }
}

/// Adds a text to a list, unless it is missing.
fn push_text(parts: &mut Vec<String>, s: Option<&str>)
    ensures
        text::views(final(parts)@) == text::views(old(parts)@) + one(
            match s {
                Some(t) => Some(t@),
                None => None,
            },
        ),
{
    match s {
        Some(t) => {
            parts.push(t.to_string());
            assert(text::views(parts@) =~= text::views(old(parts)@) + seq![t@]);
        },
        None => {
            assert(text::views(parts@) =~= text::views(old(parts)@) + seq![]);
        },
    }
}

/// Adds a text to a list, unless it is missing or empty.
fn push_not_empty(parts: &mut Vec<String>, s: Option<&str>)
    ensures
        text::views(final(parts)@) == text::views(old(parts)@) + one_not_empty(
            match s {
                Some(t) => Some(t@),
                None => None,
            },
        ),
{
    match s {
        Some(t) => {
            if !is_nothing(t) {
                parts.push(t.to_string());
                assert(text::views(parts@) =~= text::views(old(parts)@) + seq![t@]);
            } else {
                assert(text::views(parts@) =~= text::views(old(parts)@) + seq![]);
            }
        },
        None => {
            assert(text::views(parts@) =~= text::views(old(parts)@) + seq![]);
        },
    }
}

/// The text of an attachment.
fn extract_attachment(attachment: Option<&Json>) -> (r: String)
    ensures
        r@ == attachment_text(
            match attachment {
                Some(a) => Some(json::tree(*a)),
                None => None,
            },
        ),
{
    match attachment {
        Some(a) => {
            let mut parts: Vec<String> = Vec::new();
            push_text(&mut parts, a.text("content"));
            push_not_empty(&mut parts, a.text("stdout"));
            push_not_empty(&mut parts, a.text("stderr"));
            let ghost t = json::tree(*a);
            assert(text::views(parts@) =~= one(json::text_member(t, "content"@)) + one_not_empty(
                json::text_member(t, "stdout"@),
            ) + one_not_empty(json::text_member(t, "stderr"@)));
            join(&parts, "\n")
        },
        None => String::new(),
    }
}

/// Adds what one block of a message's content says.
fn push_block(parts: &mut Vec<String>, block: &Json)
    ensures
        text::views(final(parts)@) == text::views(old(parts)@) + block_parts(json::tree(*block)),
{
    let ghost before = text::views(old(parts)@);
    let ghost t = json::tree(*block);
    match block.as_text() {
        Some(s) => {
            push_text(parts, Some(s));
            return ;
        },
        None => {},
    }
    push_text(parts, block.text("text"));
    push_text(parts, block.text("thinking"));
    let ghost so_far = text::views(parts@);
    match block.text("name") {
        Some(name) => {
            let mut tool = "[tool: ".to_string();
            tool.append(name);
            tool.append("]");
            push_text(parts, Some(tool.as_str()));
            match block.get("input") {
                Some(input) => {
                    let shown = input.compact();
                    push_text(parts, Some(shown.as_str()));
                },
                None => {},
            }
        },
        None => {},
    }
    assert(text::views(parts@) =~= before + block_parts(t));
}

/// The text of a message, whose content is either a text or a list of blocks.
pub fn extract_message_content(msg: Option<&Json>) -> (r: String)
    ensures
        r@ == message_text(
            match msg {
                Some(m) => Some(json::tree(*m)),
                None => None,
            },
        ),
{
    let content: &Json = match msg {
        Some(m) => match m.get("content") {
            Some(c) => c,
            None => return String::new(),
        },
        None => return String::new(),
    };
    match content {
        Json::Text(s) => s.clone(),
        Json::Array(list) => {
            let mut parts: Vec<String> = Vec::new();
            let mut i: usize = 0;
            let ghost blocks = json::tree(*content)->Array_0;
            assert(text::views(parts@) =~= content_parts(blocks.take(0)));
            while i < list.len()
                invariant
                    i <= list.len(),
                    *content == Json::Array(*list),
                    blocks == json::tree(*content)->Array_0,
                    text::views(parts@) == content_parts(blocks.take(i as int)),
                decreases list.len() - i,
            {
                push_block(&mut parts, &list[i]);
                assert(blocks.take(i + 1).drop_last() =~= blocks.take(i as int));
                assert(blocks.take(i + 1).last() == json::tree(list@[i as int]));
                i += 1;
            }
            assert(blocks.take(i as int) =~= blocks);
            join(&parts, "\n")
        },
        _ => String::new(),
    }
}

/// The label of the project that a transcript file belongs to: its directory is
/// named after the project's path, with dashes for slashes.
pub fn project_from_path(path: &str) -> (r: String)
    ensures
        r@ == project_label(path@),
{
    match paths::parent_name(path) {
        None => String::new(),
        Some(dir) => {
            let v = chars_of(dir.as_str());
            let mut from: usize = 0;
            assert(v@.skip(0) =~= v@);
            while from < v.len() && v[from] == '-'
                invariant
                    from <= v.len(),
                    without_dashes(v@) == without_dashes(v@.skip(from as int)),
                decreases v.len() - from,
            {
                assert(v@.skip(from as int).drop_first() =~= v@.skip(from + 1));
                from += 1;
            }
            let ghost rest = without_dashes(v@);
            assert(rest == v@.skip(from as int));
            let mut out = String::new();
            let mut i: usize = from;
            while i < v.len()
                invariant
                    from <= i <= v.len(),
                    rest == v@.skip(from as int),
                    out@ == swapped(rest.take(i - from), '-', '/'),
                decreases v.len() - i,
            {
                if v[i] == '-' {
                    out.push('/');
                } else {
                    out.push(v[i]);
                }
                assert(rest[i - from] == v@[i as int]);
                assert(out@ =~= swapped(rest.take(i + 1 - from), '-', '/'));
                i += 1;
            }
            assert(rest.take(i - from) =~= rest);
            out
        },
    }
}

/// The label of a directory that is named after an absolute path is that path
/// without the slash in front. The path must be free of dashes, which the
/// directory's name shows as slashes do, and have one slash in front.
pub proof fn law_label_gives_back_path(path: Seq<char>)
    requires
        !path.contains('-'),
        path.len() > 0 ==> path[0] != '/',
    ensures
        label_of(swapped(seq!['/'] + path, '/', '-')) == path,
{
    let dir = swapped(seq!['/'] + path, '/', '-');
    let rest = swapped(path, '/', '-');
    assert(dir.drop_first() =~= rest);
    if rest.len() > 0 {
        assert(path.contains(path[0]));
    }
    assert(without_dashes(dir) == without_dashes(rest));
    assert(without_dashes(rest) == rest);
    assert forall|i: int| 0 <= i < path.len() implies swapped(rest, '-', '/')[i] == path[i] by {
        assert(path.contains(path[i]));
    }
    assert(swapped(rest, '-', '/') =~= path);
}

/// Only what users, assistants and attachments say is searchable: a line with any
/// other role, or with none, has no record.
pub proof fn law_other_roles_have_no_record(t: json::Tree, path: Seq<char>, index: u64)
    requires
        role_of(t) != "user"@,
        role_of(t) != "assistant"@,
        role_of(t) != "attachment"@,
    ensures
        event_of(t, path, index) is None,
{
}

/// A record has something to search for, and tells where it came from.
pub proof fn law_records_are_searchable(t: json::Tree, path: Seq<char>, index: u64)
    ensures
        event_of(t, path, index) matches Some(e) ==> !text::is_blank(e.text) && e.file_path == path
            && e.event_index == index,
{
}

/// What the blocks of two lists add is what those of each add, in turn.
proof fn lemma_content_in_turn(a: Seq<json::Tree>, b: Seq<json::Tree>)
    ensures
        content_parts(a + b) == content_parts(a) + content_parts(b),
    decreases b.len(),
{
    if b.len() == 0 {
        assert(a + b =~= a);
        assert(content_parts(a + b) =~= content_parts(a) + content_parts(b));
    } else {
        assert((a + b).drop_last() =~= a + b.drop_last());
        lemma_content_in_turn(a, b.drop_last());
        assert(content_parts(a + b) =~= content_parts(a) + content_parts(b));
    }
}

/// What a message says stands in the text of its record: of a list of blocks every one
/// that is a text, and of each block that has members the texts `text` and `thinking`,
/// and for a `name` a line that names the tool, with the input, where there is one, on the
/// lines after it. It does not matter what else is in the block, its type among that, nor
/// in the message or beside it.
pub proof fn law_blocks_are_in_text(
    fields: Map<Seq<char>, json::Tree>,
    message: Map<Seq<char>, json::Tree>,
    blocks: Seq<json::Tree>,
    i: int,
    path: Seq<char>,
    index: u64,
)
    requires
        fields.contains_key("type"@),
        fields["type"@] == json::Tree::Text("user"@) || fields["type"@] == json::Tree::Text(
            "assistant"@,
        ),
        fields.contains_key("message"@),
        fields["message"@] == json::Tree::Object(message),
        message.contains_key("content"@),
        message["content"@] == json::Tree::Array(blocks),
        0 <= i < blocks.len(),
    ensures
        ({
            let record = event_of(json::Tree::Object(fields), path, index);
            match blocks[i] {
                json::Tree::Text(s) => if record is Some {
                    text::holds_line(record->0.text, s)
                } else {
                    text::is_blank(s)
                },
                json::Tree::Object(m) => {
                    &&& m.contains_key("text"@) ==> (m["text"@] matches json::Tree::Text(s) ==> if record
                        is Some {
                        text::holds_line(record->0.text, s)
                    } else {
                        text::is_blank(s)
                    })
                    &&& m.contains_key("thinking"@) ==> (m["thinking"@] matches json::Tree::Text(s)
                        ==> if record is Some {
                        text::holds_line(record->0.text, s)
                    } else {
                        text::is_blank(s)
                    })
                    &&& m.contains_key("name"@) ==> (m["name"@] matches json::Tree::Text(name)
                        ==> record is Some && text::holds_line(
                        record->0.text,
                        "[tool: "@ + name + "]"@,
                    ) && (m.contains_key("input"@) ==> text::holds_line(
                        record->0.text,
                        "[tool: "@ + name + "]"@ + seq!['\n'] + json::json_compact(m["input"@]),
                    )))
                },
                _ => true,
            }
        }),
{
    let t = json::Tree::Object(fields);
    let body = searchable_text(t, role_of(t));
    let (a, c) = (content_parts(blocks.take(i)), content_parts(blocks.skip(i + 1)));
    lemma_line_end();
    lemma_content_around(blocks, i);
    assert(body == text::joined(a + block_parts(blocks[i]) + c, seq!['\n']));
    match blocks[i] {
        json::Tree::Text(s) => {
            let b = block_parts(blocks[i]);
            assert(b =~= Seq::<Seq<char>>::empty() + seq![s] + Seq::<Seq<char>>::empty());
            lemma_part_is_a_line(a, seq![], s, seq![], c, b);
        },
        json::Tree::Object(m) => {
            lemma_block_says(a, blocks[i], c);
            lemma_block_uses(a, blocks[i], c);
        },
        _ => {},
    }
}

/// What a block with members says and thinks is on lines of its own.
proof fn lemma_block_says(a: Seq<Seq<char>>, block: json::Tree, c: Seq<Seq<char>>)
    requires
        block is Object,
    ensures
        ({
            let s = text::joined(a + block_parts(block) + c, seq!['\n']);
            &&& json::text_member(block, "text"@) matches Some(part) ==> text::holds_line(s, part) && (
            text::is_blank(s) ==> text::is_blank(part))
            &&& json::text_member(block, "thinking"@) matches Some(part) ==> text::holds_line(s, part)
                && (text::is_blank(s) ==> text::is_blank(part))
        }),
{
    let b = block_parts(block);
    let x = one(json::text_member(block, "text"@));
    let y = one(json::text_member(block, "thinking"@));
    let z = b.skip((x.len() + y.len()) as int);
    assert(b =~= x + y + z);
    if x.len() > 0 {
        assert(b =~= Seq::<Seq<char>>::empty() + seq![x[0]] + (y + z));
        lemma_part_is_a_line(a, seq![], x[0], y + z, c, b);
    }
    if y.len() > 0 {
        assert(b =~= x + seq![y[0]] + z);
        lemma_part_is_a_line(a, x, y[0], z, c, b);
    }
}

/// The tool that a block uses is on a line of its own, with its input on the next.
proof fn lemma_block_uses(a: Seq<Seq<char>>, block: json::Tree, c: Seq<Seq<char>>)
    requires
        block is Object,
    ensures
        ({
            let s = text::joined(a + block_parts(block) + c, seq!['\n']);
            json::text_member(block, "name"@) matches Some(name) ==> !text::is_blank(s)
                && text::holds_line(s, "[tool: "@ + name + "]"@) && (json::member(
                block,
                "input"@,
            ) matches Some(input) ==> text::holds_line(
                s,
                "[tool: "@ + name + "]"@ + seq!['\n'] + json::json_compact(input),
            ))
        }),
{
    let b = block_parts(block);
    let front = one(json::text_member(block, "text"@)) + one(
        json::text_member(block, "thinking"@),
    );
    if let Some(name) = json::text_member(block, "name"@) {
        let tool = "[tool: "@ + name + "]"@;
        let rest = b.skip(front.len() as int + 1);
        assert(b =~= front + seq![tool] + rest);
        lemma_part_is_a_line(a, front, tool, rest, c, b);
        reveal_strlit("[tool: ");
        assert(tool[0] == '[');
        assert(!text::is_white(tool[0]));
        if let Some(input) = json::member(block, "input"@) {
            let shown = json::json_compact(input);
            assert(rest =~= seq![shown]);
            text::law_joined_in_turn(seq![tool], seq![shown], seq!['\n']);
            text::law_joined_in_turn(seq![shown], seq![], seq!['\n']);
            let both = seq![tool] + seq![shown];
            assert(a + b + c =~= (a + front) + both + c);
            text::lemma_joined_holds(a + front, both, c);
        }
    }
}

/// An end of a line as a text.
proof fn lemma_line_end()
    ensures
        "\n"@ == seq!['\n'],
{
    reveal_strlit("\n");
    assert("\n"@ =~= seq!['\n']);
}

/// What the blocks before a block add, what it adds and what those after it add.
proof fn lemma_content_around(blocks: Seq<json::Tree>, i: int)
    requires
        0 <= i < blocks.len(),
    ensures
        content_parts(blocks) == content_parts(blocks.take(i)) + block_parts(blocks[i])
            + content_parts(blocks.skip(i + 1)),
{
    let front = blocks.take(i + 1);
    assert(front.drop_last() =~= blocks.take(i));
    assert(blocks =~= front + blocks.skip(i + 1));
    lemma_content_in_turn(front, blocks.skip(i + 1));
}

/// A part of a block is on lines of its own, and where it is not blank, neither is the
/// text it is in.
proof fn lemma_part_is_a_line(
    a: Seq<Seq<char>>,
    x: Seq<Seq<char>>,
    part: Seq<char>,
    y: Seq<Seq<char>>,
    c: Seq<Seq<char>>,
    b: Seq<Seq<char>>,
)
    requires
        b == x + seq![part] + y,
    ensures
        text::holds_line(text::joined(a + b + c, seq!['\n']), part),
        text::is_blank(text::joined(a + b + c, seq!['\n'])) ==> text::is_blank(part),
{
    let s = text::joined(a + b + c, seq!['\n']);
    assert(a + b + c =~= (a + x) + seq![part] + (y + c));
    text::lemma_joined_holds(a + x, seq![part], y + c);
    assert(text::joined(seq![part], seq!['\n']) == part);
    let at = choose|at: int| #[trigger] text::line_at(s, part, at);
    if text::is_blank(s) {
        assert forall|i: int| 0 <= i < part.len() implies #[trigger] text::is_white(part[i]) by {
            assert(s.subrange(at, at + part.len())[i] == s[at + i]);
            assert(text::is_white(s[at + i]));
        }
    }
}

/// The text of a message is that of its blocks in turn, a line or more for each, and there
/// is nothing else in it: a block that is a text adds itself; one with members adds its
/// `text`, then its `thinking`, then for a `name` a line for the tool and, where it has
/// one, its `input`; any other block adds nothing.
pub proof fn law_text_is_made_of_blocks(
    message: Map<Seq<char>, json::Tree>,
    a: Seq<json::Tree>,
    block: json::Tree,
)
    requires
        message.contains_key("content"@),
        message["content"@] == json::Tree::Array(a.push(block)),
    ensures
        message_text(Some(json::Tree::Object(message))) == text::joined(
            content_parts(a.push(block)),
            seq!['\n'],
        ),
        content_parts(a).is_prefix_of(content_parts(a.push(block))),
        ({
            let added = content_parts(a.push(block)).skip(content_parts(a).len() as int);
            match block {
                json::Tree::Text(s) => added == seq![s],
                json::Tree::Object(m) => {
                    let x: int = if m.contains_key("text"@) && m["text"@] is Text {
                        1
                    } else {
                        0
                    };
                    let y: int = if m.contains_key("thinking"@) && m["thinking"@] is Text {
                        1
                    } else {
                        0
                    };
                    let z: int = if m.contains_key("name"@) && m["name"@] is Text {
                        if m.contains_key("input"@) {
                            2
                        } else {
                            1
                        }
                    } else {
                        0
                    };
                    &&& added.len() == x + y + z
                    &&& x == 1 ==> m["text"@] == json::Tree::Text(added[0])
                    &&& y == 1 ==> m["thinking"@] == json::Tree::Text(added[x])
                    &&& z >= 1 ==> added[x + y] == "[tool: "@ + m["name"@]->Text_0 + "]"@
                    &&& z == 2 ==> added[x + y + 1] == json::json_compact(m["input"@])
                },
                _ => added.len() == 0,
            }
        }),
        content_parts(seq![]).len() == 0,
{
    let all = a.push(block);
    assert(all.drop_last() =~= a);
    lemma_line_end();
    assert(content_parts(all) == content_parts(a) + block_parts(block));
    assert(content_parts(all).skip(content_parts(a).len() as int) =~= block_parts(block));
    assert(content_parts(all).subrange(0, content_parts(a).len() as int) =~= content_parts(a));
}

/// A message whose content is a text says that text, and a line with a text that is blank
/// has no record. What else is in the message or beside it does not matter to its text.
pub proof fn law_plain_content_is_the_text(
    fields: Map<Seq<char>, json::Tree>,
    message: Map<Seq<char>, json::Tree>,
    s: Seq<char>,
    path: Seq<char>,
    index: u64,
)
    requires
        fields.contains_key("type"@),
        fields["type"@] == json::Tree::Text("user"@) || fields["type"@] == json::Tree::Text(
            "assistant"@,
        ),
        fields.contains_key("message"@),
        fields["message"@] == json::Tree::Object(message),
        message.contains_key("content"@),
        message["content"@] == json::Tree::Text(s),
    ensures
        text::is_blank(s) ==> event_of(json::Tree::Object(fields), path, index) is None,
        !text::is_blank(s) ==> event_of(json::Tree::Object(fields), path, index) is Some
            && event_of(json::Tree::Object(fields), path, index)->0.text == s,
{
}

/// A record takes over what its line says of the session, the working directory, the
/// branch and the time, each from the member of that name where it is a text, and where
/// the line is from: its file, the project that the file is of, and its place.
pub proof fn law_record_says_what_its_line_says(
    fields: Map<Seq<char>, json::Tree>,
    path: Seq<char>,
    index: u64,
)
    ensures
        event_of(json::Tree::Object(fields), path, index) matches Some(e) ==> {
            &&& fields.contains_key("type"@) && fields["type"@] == json::Tree::Text(e.event_role)
            &&& if fields.contains_key("sessionId"@) && fields["sessionId"@] is Text {
                fields["sessionId"@] == json::Tree::Text(e.session_id)
            } else {
                e.session_id.len() == 0
            }
            &&& if fields.contains_key("cwd"@) && fields["cwd"@] is Text {
                e.cwd == Some(fields["cwd"@]->Text_0)
            } else {
                e.cwd is None
            }
            &&& if fields.contains_key("gitBranch"@) && fields["gitBranch"@] is Text {
                e.git_branch == Some(fields["gitBranch"@]->Text_0)
            } else {
                e.git_branch is None
            }
            &&& if fields.contains_key("timestamp"@) && fields["timestamp"@] is Text {
                e.timestamp == clock::rfc3339(fields["timestamp"@]->Text_0)
            } else {
                e.timestamp is None
            }
            &&& e.project == project_label(path)
            &&& e.file_path == path
            &&& e.event_index == index
        },
{
    reveal_strlit("unknown");
    reveal_strlit("user");
    reveal_strlit("assistant");
    reveal_strlit("attachment");
    assert("unknown"@.len() == 7 && "user"@.len() == 4 && "assistant"@.len() == 9
        && "attachment"@.len() == 10);
}

/// What an attachment says: its `content`, then what was written to the standard output
/// and to the standard error, where that is not empty, on lines of their own. Each of the
/// two adds to what the attachment says without it, and no other member has a part in it.
pub proof fn law_attachment_says_its_output(
    m: Map<Seq<char>, json::Tree>,
    name: Seq<char>,
    other: json::Tree,
    output: Seq<char>,
)
    requires
        output.len() > 0,
    ensures
        ({
            let says = |a: Map<Seq<char>, json::Tree>| attachment_text(Some(json::Tree::Object(a)));
            let spoken = m.contains_key("content"@) && m["content"@] is Text;
            let written = m.contains_key("stdout"@) && (m["stdout"@] matches json::Tree::Text(o)
                && o.len() > 0);
            &&& name != "content"@ && name != "stdout"@ && name != "stderr"@ ==> says(
                m.insert(name, other),
            ) == says(m)
            &&& !m.contains_key("stdout"@) && !m.contains_key("stderr"@) ==> says(m) == if spoken {
                m["content"@]->Text_0
            } else {
                Seq::empty()
            }
            &&& !m.contains_key("stdout"@) && !m.contains_key("stderr"@) ==> says(
                m.insert("stdout"@, json::Tree::Text(output)),
            ) == if spoken {
                says(m) + seq!['\n'] + output
            } else {
                output
            }
            &&& !m.contains_key("stderr"@) ==> says(m.insert("stderr"@, json::Tree::Text(output)))
                == if spoken || written {
                says(m) + seq!['\n'] + output
            } else {
                output
            }
            &&& !m.contains_key("stderr"@) ==> says(
                m.insert("stderr"@, json::Tree::Text(Seq::empty())),
            ) == says(m)
            &&& !m.contains_key("stdout"@) ==> says(
                m.insert("stdout"@, json::Tree::Text(Seq::empty())),
            ) == says(m)
        }),
{
    lemma_line_end();
    reveal_strlit("content");
    reveal_strlit("stdout");
    reveal_strlit("stderr");
    assert("content"@.len() == 7 && "stdout"@.len() == 6 && "stderr"@.len() == 6);
    assert("stdout"@[3] == 'o' && "stderr"@[3] == 'e');
    let t = json::Tree::Object(m);
    let (c, o, e) = (
        one(json::text_member(t, "content"@)),
        one_not_empty(json::text_member(t, "stdout"@)),
        one_not_empty(json::text_member(t, "stderr"@)),
    );
    let line = seq!['\n'];
    let added = seq![output];
    assert(text::joined(added, line) == output);
    if !m.contains_key("stderr"@) {
        assert(c + o + e =~= c + o);
        text::law_joined_in_turn(c + o, added, line);
        if !m.contains_key("stdout"@) {
            assert(c + o =~= c);
            assert(c + added + e =~= c + added);
            text::law_joined_in_turn(c, added, line);
            assert(c.len() > 0 ==> c =~= seq![m["content"@]->Text_0]);
            assert(c.len() == 0 ==> text::joined(c, line) =~= Seq::empty());
        }
        assert(c + o + Seq::empty() =~= c + o);
    }
    if !m.contains_key("stdout"@) {
        assert(c + Seq::empty() + e =~= c + o + e);
    }
}

/// What is searchable in an attachment is what its `attachment` says; of what has another
/// role than an attachment, that has no part in it.
pub proof fn law_attachment_is_the_text(
    fields: Map<Seq<char>, json::Tree>,
    path: Seq<char>,
    index: u64,
)
    requires
        fields.contains_key("type"@),
        fields["type"@] == json::Tree::Text("attachment"@),
        fields.contains_key("attachment"@),
    ensures
        ({
            let said = attachment_text(Some(fields["attachment"@]));
            match event_of(json::Tree::Object(fields), path, index) {
                Some(e) => e.text == said && !text::is_blank(said),
                None => text::is_blank(said),
            }
        }),
{
    reveal_strlit("user");
    reveal_strlit("assistant");
    reveal_strlit("attachment");
    assert("user"@.len() == 4 && "assistant"@.len() == 9 && "attachment"@.len() == 10);
}

/// A transcript belongs to the project that its directory is named after, wherever that
/// directory is: the name is the project's path with dashes for slashes.
pub proof fn law_project_is_told_by_directory(dir: Seq<char>, project: Seq<char>, file: Seq<char>)
    requires
        !project.contains('-'),
        project.len() > 0 ==> project[0] != '/',
        paths::is_name(file),
    ensures
        project_label(
            dir + seq!['/'] + swapped(seq!['/'] + project, '/', '-') + seq!['/'] + file,
        ) == project,
{
    let name = swapped(seq!['/'] + project, '/', '-');
    assert(name[0] == '-');
    assert(!name.contains('/'));
    assert(paths::is_name(name));
    paths::law_last_name(dir + seq!['/'] + name, file);
    paths::law_last_name(dir, name);
    law_label_gives_back_path(project);
}

/// A project's label has a slash for every dash in the name of its directory and is that
/// name otherwise, but for the dashes in front, of which it has none.
pub proof fn law_label_is_read_from_name(name: Seq<char>)
    ensures
        label_of(seq!['-'] + name) == label_of(name),
        (name.len() > 0 ==> name[0] != '-') ==> label_of(name).len() == name.len() && forall|i: int|
            0 <= i < name.len() ==> #[trigger] label_of(name)[i] == if name[i] == '-' {
                '/'
            } else {
                name[i]
            },
{
    let more = seq!['-'] + name;
    assert(more.drop_first() =~= name);
}

/// A line whose message has no text and no list of blocks in it, or that has no message or
/// no role, has no record.
pub proof fn law_nothing_said_is_no_record(
    fields: Map<Seq<char>, json::Tree>,
    path: Seq<char>,
    index: u64,
)
    ensures
        ({
            let record = event_of(json::Tree::Object(fields), path, index);
            let role = if fields.contains_key("type"@) {
                json::text_of(fields["type"@])
            } else {
                None
            };
            let content = if fields.contains_key("message"@) {
                json::member(fields["message"@], "content"@)
            } else {
                None
            };
            &&& role is None ==> record is None
            &&& role == Some("user"@) || role == Some("assistant"@) ==> (match content {
                Some(json::Tree::Text(_)) => true,
                Some(json::Tree::Array(_)) => true,
                _ => record is None,
            })
            &&& role == Some("attachment"@) && !fields.contains_key("attachment"@) ==> record is None
        }),
        forall|t: json::Tree| !(t is Object) ==> event_of(t, path, index) is None,
{
    reveal_strlit("unknown");
    reveal_strlit("user");
    reveal_strlit("assistant");
    reveal_strlit("attachment");
    assert("unknown"@.len() == 7 && "user"@.len() == 4 && "assistant"@.len() == 9
        && "attachment"@.len() == 10);
}

/// What a record says is what is in it, part by part.
pub proof fn law_record_is_seen_as_it_is(e: IndexableEvent)
    ensures
        e@.session_id == e.session_id@ && e@.project == e.project@ && e@.event_role == e.event_role@,
        e@.timestamp == e.timestamp && e@.event_index == e.event_index,
        e@.file_path == e.file_path@ && e@.text == e.text@,
        e@.cwd is Some <==> e.cwd is Some,
        e.cwd matches Some(s) ==> e@.cwd == Some(s@),
        e@.git_branch is Some <==> e.git_branch is Some,
        e.git_branch matches Some(s) ==> e@.git_branch == Some(s@),
        event_view(Some(e)) == Some(e@),
        event_view(None) is None,
{
}

} // verus!
