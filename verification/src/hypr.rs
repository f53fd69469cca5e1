//! What Hyprland is asked to do: the commands that float, size and move windows, in
//! the two dialects Hyprland has spoken, and which dialect to use.
//!
//! Hyprland 0.53+ takes dispatchers as Lua (`hl.dsp.window.move{...}`); older
//! releases, still shipped by some distros, use the `movewindowpixel`-style text
//! commands. Talking to the socket is left to the caller.
use vstd::prelude::*;
use vstd::string::StringExecFns;

use crate::main_window::{APP_ID, DETACHED_APP_ID};
use crate::text::{
    chars_of, push_char, push_i64, range_eq, signed_dec, ufield_ranges, ufields,
};

verus! {

/// A window as Hyprland lists it (`j/clients`).
#[derive(Clone, Debug)]
pub struct Client {
    pub address: String,
    pub pid: i64,
    pub class: String,
    pub title: String,
    pub at: [i32; 2],
    pub size: [i32; 2],
    pub floating: bool,
}

impl Client {
    /// One of this app's windows, the main one or a popped-out tile, in the process
    /// `pid`.
    pub fn is_ours(&self, pid: i64) -> (b: bool)
        ensures
            b == (self.pid == pid && (self.class@ == APP_ID@ || self.class@ == DETACHED_APP_ID@)),
    {
        let main = APP_ID.to_owned();
        let tile = DETACHED_APP_ID.to_owned();
        self.pid == pid && (self.class == main || self.class == tile)
    }

    /// The window titled `title` of the process `pid`.
    pub fn is_titled(&self, pid: i64, title: &str) -> (b: bool)
        ensures
            b == (self.pid == pid && self.title@ == title@),
    {
        let wanted = title.to_owned();
        self.pid == pid && self.title == wanted
    }
}

#[derive(Clone, Copy, Debug, PartialEq, Eq)]
pub enum Dialect {
    Lua,
    Legacy,
}

/// One step of placing a window.
#[derive(Clone, Copy, Debug, PartialEq)]
pub enum Action {
    Float,
    Resize([i32; 2]),
    Move([i32; 2]),
}

// ---------------------------------------------------------------------------------
// Commands

/// `parts` joined with `sep` between them.
pub open spec fn join(parts: Seq<Seq<char>>, sep: Seq<char>) -> Seq<char>
    decreases parts.len(),
{
    if parts.len() == 0 {
        seq![]
    } else if parts.len() == 1 {
        parts[0]
    } else {
        join(parts.drop_last(), sep) + sep + parts.last()
    }
}

pub open spec fn lua_call(window: Seq<char>, a: Action) -> Seq<char> {
    match a {
        Action::Float => "hl.dispatch(hl.dsp.window.float({ window = \""@ + window
            + "\", action = \"set\" }))"@,
        Action::Resize(s) => "hl.dispatch(hl.dsp.window.resize({ window = \""@ + window
            + "\", x = "@ + signed_dec(s[0] as int) + ", y = "@ + signed_dec(s[1] as int)
            + " }))"@,
        Action::Move(p) => "hl.dispatch(hl.dsp.window.move({ window = \""@ + window
            + "\", x = "@ + signed_dec(p[0] as int) + ", y = "@ + signed_dec(p[1] as int)
            + " }))"@,
    }
}

pub open spec fn legacy_call(address: Seq<char>, a: Action) -> Seq<char> {
    match a {
        Action::Float => "dispatch setfloating address:"@ + address,
        Action::Resize(s) => "dispatch resizewindowpixel exact "@ + signed_dec(s[0] as int) + " "@
            + signed_dec(s[1] as int) + ",address:"@ + address,
        Action::Move(p) => "dispatch movewindowpixel exact "@ + signed_dec(p[0] as int) + " "@
            + signed_dec(p[1] as int) + ",address:"@ + address,
    }
}

/// `t` occurs somewhere in `s`.
pub open spec fn has_part(s: Seq<char>, t: Seq<char>) -> bool {
    exists|a: Seq<char>, b: Seq<char>| #[trigger] (a + t + b) == s
}

proof fn lemma_lua_numbers(head: Seq<char>, window: Seq<char>, w: Seq<char>, h: Seq<char>)
    ensures
        has_part(
            head + window + "\", x = "@ + w + ", y = "@ + h + " }))"@,
            "x = "@ + w + ", y = "@ + h + " "@,
        ),
{
    assert("\", x = "@ =~= "\", "@ + "x = "@) by {
        reveal_strlit("\", x = ");
        reveal_strlit("\", ");
        reveal_strlit("x = ");
    }
    assert(" }))"@ =~= " "@ + "}))"@) by {
        reveal_strlit(" }))");
        reveal_strlit(" ");
        reveal_strlit("}))");
    }
    let a = head + window + "\", "@;
    let t = "x = "@ + w + ", y = "@ + h + " "@;
    let b = "}))"@;
    assert(a + t + b =~= head + window + "\", x = "@ + w + ", y = "@ + h + " }))"@);
}

proof fn lemma_legacy_numbers(verb: Seq<char>, w: Seq<char>, h: Seq<char>, address: Seq<char>)
    ensures
        has_part(
            "dispatch "@ + verb + " exact "@ + w + " "@ + h + ",address:"@ + address,
            verb + " exact "@ + w + " "@ + h + ","@,
        ),
{
    assert(",address:"@ =~= ","@ + "address:"@) by {
        reveal_strlit(",address:");
        reveal_strlit(",");
        reveal_strlit("address:");
    }
    let a = "dispatch "@;
    let t = verb + " exact "@ + w + " "@ + h + ","@;
    let b = "address:"@ + address;
    assert(a + t + b =~= "dispatch "@ + verb + " exact "@ + w + " "@ + h + ",address:"@ + address);
}

/// The two dialects size and place a window alike: for `Resize([w, h])` the Lua call
/// sets `x = w, y = h` where the text command says `resizewindowpixel exact w h`, and
/// the same for `Move([x, y])`.
pub proof fn lemma_dialects_name_the_same_numbers(window: Seq<char>, address: Seq<char>, v: [i32; 2])
    ensures
        has_part(
            lua_call(window, Action::Resize(v)),
            "x = "@ + signed_dec(v[0] as int) + ", y = "@ + signed_dec(v[1] as int) + " "@,
        ),
        has_part(
            legacy_call(address, Action::Resize(v)),
            "resizewindowpixel"@ + " exact "@ + signed_dec(v[0] as int) + " "@ + signed_dec(v[1] as int) + ","@,
        ),
        has_part(
            lua_call(window, Action::Move(v)),
            "x = "@ + signed_dec(v[0] as int) + ", y = "@ + signed_dec(v[1] as int) + " "@,
        ),
        has_part(
            legacy_call(address, Action::Move(v)),
            "movewindowpixel"@ + " exact "@ + signed_dec(v[0] as int) + " "@ + signed_dec(v[1] as int) + ","@,
        ),
{
    let w = signed_dec(v[0] as int);
    let h = signed_dec(v[1] as int);
    lemma_lua_numbers("hl.dispatch(hl.dsp.window.resize({ window = \""@, window, w, h);
    lemma_lua_numbers("hl.dispatch(hl.dsp.window.move({ window = \""@, window, w, h);
    lemma_legacy_numbers("resizewindowpixel"@, w, h, address);
    lemma_legacy_numbers("movewindowpixel"@, w, h, address);
    assert("dispatch resizewindowpixel exact "@ =~= "dispatch "@ + "resizewindowpixel"@ + " exact "@) by {
        reveal_strlit("dispatch resizewindowpixel exact ");
        reveal_strlit("dispatch ");
        reveal_strlit("resizewindowpixel");
        reveal_strlit(" exact ");
    }
    assert("dispatch movewindowpixel exact "@ =~= "dispatch "@ + "movewindowpixel"@ + " exact "@) by {
        reveal_strlit("dispatch movewindowpixel exact ");
        reveal_strlit("dispatch ");
        reveal_strlit("movewindowpixel");
        reveal_strlit(" exact ");
    }
    assert(legacy_call(address, Action::Resize(v)) =~= "dispatch "@ + "resizewindowpixel"@ + " exact "@ + w
        + " "@ + h + ",address:"@ + address);
    assert(legacy_call(address, Action::Move(v)) =~= "dispatch "@ + "movewindowpixel"@ + " exact "@ + w + " "@
        + h + ",address:"@ + address);
}

pub open spec fn lua_command_spec(address: Seq<char>, actions: Seq<Action>) -> Seq<char> {
    "eval "@ + join(actions.map_values(|a: Action| lua_call("address:"@ + address, a)), " "@)
}

pub open spec fn legacy_command_spec(address: Seq<char>, actions: Seq<Action>) -> Seq<char> {
    "[[BATCH]]"@ + join(actions.map_values(|a: Action| legacy_call(address, a)), ";"@)
}

fn push_lua_call(s: &mut String, window: &str, a: Action)
    ensures
        final(s)@ == old(s)@ + lua_call(window@, a),
{
    match a {
        Action::Float => {
            s.append("hl.dispatch(hl.dsp.window.float({ window = \"");
            s.append(window);
            s.append("\", action = \"set\" }))");
        },
        Action::Resize(size) => {
            s.append("hl.dispatch(hl.dsp.window.resize({ window = \"");
            s.append(window);
            s.append("\", x = ");
            push_i64(s, size[0] as i64);
            s.append(", y = ");
            push_i64(s, size[1] as i64);
            s.append(" }))");
        },
        Action::Move(pos) => {
            s.append("hl.dispatch(hl.dsp.window.move({ window = \"");
            s.append(window);
            s.append("\", x = ");
            push_i64(s, pos[0] as i64);
            s.append(", y = ");
            push_i64(s, pos[1] as i64);
            s.append(" }))");
        },
    }
}

fn push_legacy_call(s: &mut String, address: &str, a: Action)
    ensures
        final(s)@ == old(s)@ + legacy_call(address@, a),
{
    match a {
        Action::Float => {
            s.append("dispatch setfloating address:");
            s.append(address);
        },
        Action::Resize(size) => {
            s.append("dispatch resizewindowpixel exact ");
            push_i64(s, size[0] as i64);
            s.append(" ");
            push_i64(s, size[1] as i64);
            s.append(",address:");
            s.append(address);
        },
        Action::Move(pos) => {
            s.append("dispatch movewindowpixel exact ");
            push_i64(s, pos[0] as i64);
            s.append(" ");
            push_i64(s, pos[1] as i64);
            s.append(",address:");
            s.append(address);
        },
    }
}

/// The actions as one Lua `eval` (Hyprland 0.53 and later).
pub fn lua_command(address: &str, actions: &[Action]) -> (s: String)
    ensures
        s@ == lua_command_spec(address@, actions@),
{
    let mut window = String::from_str("address:");
    window.append(address);
    let mut s = String::from_str("eval ");
    let ghost calls = actions@.map_values(|a: Action| lua_call("address:"@ + address@, a));
    let mut i: usize = 0;
    while i < actions.len()
        invariant
            i <= actions@.len(),
            window@ == "address:"@ + address@,
            calls == actions@.map_values(|a: Action| lua_call("address:"@ + address@, a)),
            s@ == "eval "@ + join(calls.take(i as int), " "@),
        decreases actions@.len() - i,
    {
        if i > 0 {
            s.append(" ");
        }
        push_lua_call(&mut s, window.as_str(), actions[i]);
        proof {
            assert(calls.take(i + 1).drop_last() =~= calls.take(i as int));
            assert(calls.take(i + 1).last() == calls[i as int]);
            if i == 0 {
                assert(calls.take(1) =~= seq![calls[0]]);
            }
        }
        i = i + 1;
    }
    proof {
        assert(calls.take(i as int) =~= calls);
    }
    s
}

/// The actions as one `[[BATCH]]` of text commands (Hyprland before 0.53).
pub fn legacy_command(address: &str, actions: &[Action]) -> (s: String)
    ensures
        s@ == legacy_command_spec(address@, actions@),
{
    let mut s = String::from_str("[[BATCH]]");
    let ghost calls = actions@.map_values(|a: Action| legacy_call(address@, a));
    let mut i: usize = 0;
    while i < actions.len()
        invariant
            i <= actions@.len(),
            calls == actions@.map_values(|a: Action| legacy_call(address@, a)),
            s@ == "[[BATCH]]"@ + join(calls.take(i as int), ";"@),
        decreases actions@.len() - i,
    {
        if i > 0 {
            s.append(";");
        }
        push_legacy_call(&mut s, address, actions[i]);
        proof {
            assert(calls.take(i + 1).drop_last() =~= calls.take(i as int));
            assert(calls.take(i + 1).last() == calls[i as int]);
            if i == 0 {
                assert(calls.take(1) =~= seq![calls[0]]);
            }
        }
        i = i + 1;
    }
    proof {
        assert(calls.take(i as int) =~= calls);
    }
    s
}

/// Characters with a meaning in a regular expression.
pub open spec fn regex_special(c: char) -> bool {
    c == '\\' || c == '.' || c == '+' || c == '*' || c == '?' || c == '(' || c == ')' || c == '|'
        || c == '[' || c == ']' || c == '{' || c == '}' || c == '^' || c == '$'
}

/// `s` with a backslash before every character that means something in a regex.
pub open spec fn regex_escaped(s: Seq<char>) -> Seq<char>
    decreases s.len(),
{
    if s.len() == 0 {
        seq![]
    } else if regex_special(s.last()) {
        regex_escaped(s.drop_last()) + seq!['\\', s.last()]
    } else {
        regex_escaped(s.drop_last()).push(s.last())
    }
}

fn is_regex_special(c: char) -> (b: bool)
    ensures
        b == regex_special(c),
{
    c == '\\' || c == '.' || c == '+' || c == '*' || c == '?' || c == '(' || c == ')' || c == '|'
        || c == '[' || c == ']' || c == '{' || c == '}' || c == '^' || c == '$'
}

/// `text` as a regex that matches exactly it.
pub fn regex_escape(text: &str) -> (out: String)
    ensures
        out@ == regex_escaped(text@),
{
    let v = chars_of(text);
    let mut out = String::new();
    let mut i: usize = 0;
    while i < v.len()
        invariant
            i <= v@.len(),
            v@ == text@,
            out@ == regex_escaped(v@.take(i as int)),
        decreases v@.len() - i,
    {
        let ch = v[i];
        proof {
            assert(v@.take(i + 1).drop_last() =~= v@.take(i as int));
            assert(v@.take(i + 1).last() == ch);
        }
        if is_regex_special(ch) {
            push_char(&mut out, '\\');
        }
        push_char(&mut out, ch);
        proof {
            if regex_special(ch) {
                assert(out@ =~= regex_escaped(v@.take(i as int)) + seq!['\\', ch]);
            }
        }
        i = i + 1;
    }
    proof {
        assert(v@.take(i as int) =~= v@);
    }
    out
}

/// `s` with `\` and `"` escaped, as inside a Lua string.
pub open spec fn lua_escaped(s: Seq<char>) -> Seq<char>
    decreases s.len(),
{
    if s.len() == 0 {
        seq![]
    } else if s.last() == '\\' || s.last() == '"' {
        lua_escaped(s.drop_last()) + seq!['\\', s.last()]
    } else {
        lua_escaped(s.drop_last()).push(s.last())
    }
}

pub open spec fn lua_string_spec(s: Seq<char>) -> Seq<char> {
    seq!['"'] + lua_escaped(s) + seq!['"']
}

/// `text` as a Lua string literal.
pub fn lua_string(text: &str) -> (out: String)
    ensures
        out@ == lua_string_spec(text@),
{
    let v = chars_of(text);
    let mut out = String::new();
    push_char(&mut out, '"');
    let mut i: usize = 0;
    while i < v.len()
        invariant
            i <= v@.len(),
            v@ == text@,
            out@ == seq!['"'] + lua_escaped(v@.take(i as int)),
        decreases v@.len() - i,
    {
        let ch = v[i];
        proof {
            assert(v@.take(i + 1).drop_last() =~= v@.take(i as int));
            assert(v@.take(i + 1).last() == ch);
        }
        if ch == '\\' || ch == '"' {
            push_char(&mut out, '\\');
        }
        push_char(&mut out, ch);
        proof {
            if ch == '\\' || ch == '"' {
                assert(out@ =~= seq!['"'] + lua_escaped(v@.take(i as int)) + seq!['\\', ch]);
            } else {
                assert(out@ =~= (seq!['"'] + lua_escaped(v@.take(i as int))).push(ch));
            }
        }
        i = i + 1;
    }
    proof {
        assert(v@.take(i as int) =~= v@);
    }
    push_char(&mut out, '"');
    out
}

pub open spec fn lua_tile_rule_spec(class: Seq<char>, title: Seq<char>, pos: Option<[i32; 2]>, size: [i32; 2]) -> Seq<char> {
    let name = lua_string_spec(class + ": "@ + title);
    let class_re = lua_string_spec("^("@ + regex_escaped(class) + ")$"@);
    let title_re = lua_string_spec("^("@ + regex_escaped(title) + ")$"@);
    let placement = match pos {
        None => seq![],
        Some(p) => ", move = { "@ + signed_dec(p[0] as int) + ", "@ + signed_dec(p[1] as int) + " }"@,
    };
    "eval hl.window_rule({ name = "@ + name + ", match = { class = "@ + class_re + ", title = "@
        + title_re + " }, float = true, size = { "@ + signed_dec(size[0] as int) + ", "@ + signed_dec(
        size[1] as int,
    ) + " }"@ + placement + " })"@
}

/// A named rule (re-registering the same name just updates it) so the window maps
/// already floating at its final size and position.
pub fn lua_tile_rule(class: &str, title: &str, pos: Option<[i32; 2]>, size: [i32; 2]) -> (s: String)
    ensures
        s@ == lua_tile_rule_spec(class@, title@, pos, size),
{
    let mut name = String::from_str(class);
    name.append(": ");
    name.append(title);
    let name = lua_string(name.as_str());
    let mut class_re = String::from_str("^(");
    class_re.append(regex_escape(class).as_str());
    class_re.append(")$");
    let class_re = lua_string(class_re.as_str());
    let mut title_re = String::from_str("^(");
    title_re.append(regex_escape(title).as_str());
    title_re.append(")$");
    let title_re = lua_string(title_re.as_str());
    let mut s = String::from_str("eval hl.window_rule({ name = ");
    s.append(name.as_str());
    s.append(", match = { class = ");
    s.append(class_re.as_str());
    s.append(", title = ");
    s.append(title_re.as_str());
    s.append(" }, float = true, size = { ");
    push_i64(&mut s, size[0] as i64);
    s.append(", ");
    push_i64(&mut s, size[1] as i64);
    s.append(" }");
    match pos {
        None => {},
        Some(p) => {
            s.append(", move = { ");
            push_i64(&mut s, p[0] as i64);
            s.append(", ");
            push_i64(&mut s, p[1] as i64);
            s.append(" }");
        },
    }
    s.append(" })");
    s
}

pub open spec fn legacy_tile_rule_spec(class: Seq<char>, title: Seq<char>, size: [i32; 2]) -> Seq<char> {
    "[[BATCH]]keyword windowrulev2 float,class:^("@ + class + ")$;keyword windowrulev2 size "@
        + signed_dec(size[0] as int) + " "@ + signed_dec(size[1] as int) + ",title:^("@
        + regex_escaped(title) + ")$"@
}

/// The same rule for Hyprland before 0.53: float by class, size by title.
pub fn legacy_tile_rule(class: &str, title: &str, size: [i32; 2]) -> (s: String)
    ensures
        s@ == legacy_tile_rule_spec(class@, title@, size),
{
    let title = regex_escape(title);
    let mut s = String::from_str("[[BATCH]]keyword windowrulev2 float,class:^(");
    s.append(class);
    s.append(")$;keyword windowrulev2 size ");
    push_i64(&mut s, size[0] as i64);
    s.append(" ");
    push_i64(&mut s, size[1] as i64);
    s.append(",title:^(");
    s.append(title.as_str());
    s.append(")$");
    s
}

/// Every command in a batch answers "ok"; anything else is an error message.
pub open spec fn replies_ok(reply: Seq<char>) -> bool {
    let parts = ufields(reply);
    parts.len() > 0 && forall|i: int| 0 <= i < parts.len() ==> #[trigger] parts[i] == "ok"@
}

pub fn all_ok(reply: &str) -> (b: bool)
    ensures
        b == replies_ok(reply@),
{
    let v = chars_of(reply);
    let ok = chars_of("ok");
    let parts = ufield_ranges(&v, 0, v.len());
    proof {
        assert(v@.subrange(0, v@.len() as int) =~= v@);
    }
    if parts.len() == 0 {
        return false;
    }
    let mut i: usize = 0;
    while i < parts.len()
        invariant
            i <= parts@.len(),
            ok@ == "ok"@,
            parts@.len() == ufields(v@).len(),
            v@ == reply@,
            forall|j: int| 0 <= j < parts@.len() ==> (#[trigger] parts@[j]).0 <= parts@[j].1 <= v@.len()
                && crate::text::at_range(v@, parts@[j]) == ufields(v@)[j],
            forall|j: int| 0 <= j < i ==> #[trigger] ufields(v@)[j] == "ok"@,
        decreases parts@.len() - i,
    {
        if !range_eq(&v, parts[i], &ok) {
            return false;
        }
        i = i + 1;
    }
    true
}

// ---------------------------------------------------------------------------------
// Dialect

/// The dialect a command is sent in first: the known one, else Lua.
pub open spec fn first_dialect(known: Option<Dialect>) -> Dialect {
    match known {
        Some(k) => k,
        None => Dialect::Lua,
    }
}

/// After a command sent in `tried` is answered (`ok`: every part of it worked): what
/// is known then, and which dialect to send the same command in next, if any. A known
/// dialect is sent once; an unknown one is found by trying Lua, then the text
/// commands, and learnt from the first that works.
pub open spec fn reply_step(known: Option<Dialect>, tried: Dialect, ok: bool) -> (
    Option<Dialect>,
    Option<Dialect>,
) {
    match known {
        Some(k) => (Some(k), None),
        None => if ok {
            (Some(tried), None)
        } else if tried == Dialect::Lua {
            (None, Some(Dialect::Legacy))
        } else {
            (None, None)
        },
    }
}

/// A command is sent at most twice: in the dialect tried first and, only if that
/// failed while the dialect was unknown, once more in the text commands. A dialect
/// once learnt is kept, and is the one every later command is sent in.
pub proof fn lemma_at_most_two_tries(known: Option<Dialect>, ok1: bool, ok2: bool)
    ensures
        ({
            let first = first_dialect(known);
            let (k1, next) = reply_step(known, first, ok1);
            &&& next matches Some(second) ==> known is None && first == Dialect::Lua && second
                == Dialect::Legacy && !ok1 && reply_step(k1, second, ok2).1 is None
            &&& known matches Some(k) ==> k1 == Some(k) && first == k
            &&& ok1 ==> k1 == Some(first)
        }),
{
}

/// What is known of the Hyprland being talked to: which dialect it speaks, once a
/// command has worked.
#[derive(Clone, Copy, Debug)]
pub struct Hypr {
    dialect: Option<Dialect>,
}

impl Hypr {
    pub closed spec fn known(&self) -> Option<Dialect> {
        self.dialect
    }

    /// Nothing known yet.
    pub fn new() -> (h: Self)
        ensures
            h.known() is None,
    {
        Hypr { dialect: None }
    }

    pub fn dialect(&self) -> (d: Option<Dialect>)
        ensures
            d == self.known(),
    {
        self.dialect
    }

    /// The dialect to send a command in first: the known one, else Lua.
    pub fn first_try(&self) -> (d: Dialect)
        ensures
            d == first_dialect(self.known()),
    {
        match self.dialect {
            Some(k) => k,
            None => Dialect::Lua,
        }
    }

    /// After a command sent in `tried` was answered (`ok`: every part of it worked),
    /// learns the dialect where it did, and says which dialect to send the same command
    /// in next, if any: a known dialect is sent once; an unknown one is found by trying
    /// Lua, then the text commands.
    pub fn after_reply(&mut self, tried: Dialect, ok: bool) -> (next: Option<Dialect>)
        ensures
            (final(self).known(), next) == reply_step(old(self).known(), tried, ok),
    {
        if self.dialect.is_some() {
            None
        } else if ok {
            self.dialect = Some(tried);
            None
        } else {
            match tried {
                Dialect::Lua => Some(Dialect::Legacy),
                Dialect::Legacy => None,
            }
        }
    }
}

/// The steps still needed to float `client` at `pos` with `size`.
pub open spec fn needed_actions(floating: bool, at: [i32; 2], cur: [i32; 2], pos: [i32; 2], size: [i32; 2]) -> Seq<Action> {
    let a: Seq<Action> = if !floating { seq![Action::Float] } else { seq![] };
    let b: Seq<Action> = if cur[0] != size[0] || cur[1] != size[1] { seq![Action::Resize(size)] } else { seq![] };
    let c: Seq<Action> = if at[0] != pos[0] || at[1] != pos[1] { seq![Action::Move(pos)] } else { seq![] };
    a + b + c
}

/// Floats, sizes and positions `client`: only the steps it still needs.
pub fn place_actions(client: &Client, pos: [i32; 2], size: [i32; 2]) -> (actions: Vec<Action>)
    ensures
        actions@ == needed_actions(client.floating, client.at, client.size, pos, size),
{
    let mut actions: Vec<Action> = Vec::new();
    if !client.floating {
        actions.push(Action::Float);
    }
    if client.size[0] != size[0] || client.size[1] != size[1] {
        actions.push(Action::Resize(size));
    }
    if client.at[0] != pos[0] || client.at[1] != pos[1] {
        actions.push(Action::Move(pos));
    }
    proof {
        assert(actions@ =~= needed_actions(client.floating, client.at, client.size, pos, size));
    }
    actions
}

} // verus!
