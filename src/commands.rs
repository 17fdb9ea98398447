use vstd::prelude::*;
use crate::keys::{normalize, normalize_key, words, split_words, append_text};
use crate::model::{Text, StoreModel, stepped};
use crate::num::{counter_value, decimal, format_i64, format_usize};
use crate::storage::{MemoryStorage, texts};

verus! {

/// One client command. Keys are held as given; the engine normalises them.
#[derive(Debug, PartialEq, Eq, Clone)]
pub enum Command {
    SetValue(String, String),
    Get(String),
    Del(String),
    Incr(String),
    Decr(String),
    LPush(String, String),
    RPush(String, String),
    LPop(String),
    RPop(String),
    LLen(String),
    Multi,
    Exec,
    Discard,
    Unknown(String),
}

/// A command as characters.
pub enum CommandModel {
    SetValue(Text, Text),
    Get(Text),
    Del(Text),
    Incr(Text),
    Decr(Text),
    LPush(Text, Text),
    RPush(Text, Text),
    LPop(Text),
    RPop(Text),
    LLen(Text),
    Multi,
    Exec,
    Discard,
    Unknown(Text),
}

impl View for Command {
    type V = CommandModel;

    open spec fn view(&self) -> CommandModel {
        match self {
            Command::SetValue(k, v) => CommandModel::SetValue(k@, v@),
            Command::Get(k) => CommandModel::Get(k@),
            Command::Del(k) => CommandModel::Del(k@),
            Command::Incr(k) => CommandModel::Incr(k@),
            Command::Decr(k) => CommandModel::Decr(k@),
            Command::LPush(k, v) => CommandModel::LPush(k@, v@),
            Command::RPush(k, v) => CommandModel::RPush(k@, v@),
            Command::LPop(k) => CommandModel::LPop(k@),
            Command::RPop(k) => CommandModel::RPop(k@),
            Command::LLen(k) => CommandModel::LLen(k@),
            Command::Multi => CommandModel::Multi,
            Command::Exec => CommandModel::Exec,
            Command::Discard => CommandModel::Discard,
            Command::Unknown(s) => CommandModel::Unknown(s@),
        }
    }
}

/// The command that a request line reads as: its first word, in any case,
/// names it, and the rest are its arguments; keys are lower-cased. A line
/// that names no command, or gives the wrong number of arguments, reads as
/// unknown, with the whole line kept (empty where the line has no word).
pub open spec fn parse_model(line: Seq<char>) -> CommandModel {
    let w = words(line);
    if w.len() == 0 {
        CommandModel::Unknown(Seq::empty())
    } else {
        let name = normalize(w[0]);
        let n = w.len() - 1;
        if name == "set"@ && n == 2 {
            CommandModel::SetValue(normalize(w[1]), w[2])
        } else if name == "get"@ && n == 1 {
            CommandModel::Get(normalize(w[1]))
        } else if name == "del"@ && n == 1 {
            CommandModel::Del(normalize(w[1]))
        } else if name == "incr"@ && n == 1 {
            CommandModel::Incr(normalize(w[1]))
        } else if name == "decr"@ && n == 1 {
            CommandModel::Decr(normalize(w[1]))
        } else if name == "lpush"@ && n == 2 {
            CommandModel::LPush(normalize(w[1]), w[2])
        } else if name == "rpush"@ && n == 2 {
            CommandModel::RPush(normalize(w[1]), w[2])
        } else if name == "lpop"@ && n == 1 {
            CommandModel::LPop(normalize(w[1]))
        } else if name == "rpop"@ && n == 1 {
            CommandModel::RPop(normalize(w[1]))
        } else if name == "llen"@ && n == 1 {
            CommandModel::LLen(normalize(w[1]))
        } else if name == "multi"@ && n == 0 {
            CommandModel::Multi
        } else if name == "exec"@ && n == 0 {
            CommandModel::Exec
        } else if name == "discard"@ && n == 0 {
            CommandModel::Discard
        } else {
            CommandModel::Unknown(line)
        }
    }
}

pub struct CommandParser;

fn is_name(name: &String, lit: &str) -> (r: bool)
    ensures
        r == (name@ == lit@),
{
    let t = String::from_str(lit);
    *name == t
}

impl CommandParser {
    /// Reads one request line.
    pub fn parse(input: &str) -> (r: Command)
        ensures
            r@ == parse_model(input@),
    {
        let w = split_words(input);
        proof {
            assert(w@.len() == words(input@).len());
        }
        if w.len() == 0 {
            return Command::Unknown(String::new());
        }
        proof {
            assert forall|i: int| 0 <= i < w@.len() implies #[trigger] w@[i]@ == words(input@)[i] by {
                assert(w@.map_values(|x: String| x@)[i] == w@[i]@);
            }
        }
        let name = normalize_key(w[0].as_str());
        let n = w.len() - 1;
        if is_name(&name, "set") && n == 2 {
            Command::SetValue(normalize_key(w[1].as_str()), w[2].clone())
        } else if is_name(&name, "get") && n == 1 {
            Command::Get(normalize_key(w[1].as_str()))
        } else if is_name(&name, "del") && n == 1 {
            Command::Del(normalize_key(w[1].as_str()))
        } else if is_name(&name, "incr") && n == 1 {
            Command::Incr(normalize_key(w[1].as_str()))
        } else if is_name(&name, "decr") && n == 1 {
            Command::Decr(normalize_key(w[1].as_str()))
        } else if is_name(&name, "lpush") && n == 2 {
            Command::LPush(normalize_key(w[1].as_str()), w[2].clone())
        } else if is_name(&name, "rpush") && n == 2 {
            Command::RPush(normalize_key(w[1].as_str()), w[2].clone())
        } else if is_name(&name, "lpop") && n == 1 {
            Command::LPop(normalize_key(w[1].as_str()))
        } else if is_name(&name, "rpop") && n == 1 {
            Command::RPop(normalize_key(w[1].as_str()))
        } else if is_name(&name, "llen") && n == 1 {
            Command::LLen(normalize_key(w[1].as_str()))
        } else if is_name(&name, "multi") && n == 0 {
            Command::Multi
        } else if is_name(&name, "exec") && n == 0 {
            Command::Exec
        } else if is_name(&name, "discard") && n == 0 {
            Command::Discard
        } else {
            Command::Unknown(String::from_str(input))
        }
    }
}

pub open spec fn nil_text() -> Text {
    "(nil)"@
}

pub open spec fn or_nil(o: Option<Text>) -> Text {
    match o {
        Some(t) => t,
        None => nil_text(),
    }
}

/// Each result followed by a line break.
pub open spec fn lines(rs: Seq<Text>) -> Text
    decreases rs.len(),
{
    if rs.len() == 0 {
        Seq::empty()
    } else {
        lines(rs.drop_last()) + rs.last() + "\n"@
    }
}

/// The engine state after one command, and the reply to it.
pub open spec fn step(m: StoreModel, c: CommandModel) -> (StoreModel, Text) {
    match c {
        CommandModel::SetValue(k, v) => (m.write_string(normalize(k), Some(v)), "OK"@),
        CommandModel::Get(k) => (m, or_nil(m.string_at(normalize(k)))),
        CommandModel::Del(k) => {
            let nk = normalize(k);
            let found = m.in_transaction() || m.strings.contains_key(nk) || m.lists.contains_key(nk);
            (m.delete(nk), if found { "1"@ } else { "0"@ })
        },
        CommandModel::Incr(k) => {
            let v = stepped(counter_value(m.string_at(normalize(k))), true);
            (m.write_string(normalize(k), Some(decimal(v))), decimal(v))
        },
        CommandModel::Decr(k) => {
            let v = stepped(counter_value(m.string_at(normalize(k))), false);
            (m.write_string(normalize(k), Some(decimal(v))), decimal(v))
        },
        CommandModel::LPush(k, v) => {
            let l = m.list_or_empty(normalize(k));
            (m.write_list(normalize(k), seq![v] + l), decimal(l.len() + 1 as int))
        },
        CommandModel::RPush(k, v) => {
            let l = m.list_or_empty(normalize(k));
            (m.write_list(normalize(k), l.push(v)), decimal(l.len() + 1 as int))
        },
        CommandModel::LPop(k) => {
            let l = m.list_or_empty(normalize(k));
            if l.len() > 0 {
                (m.write_list(normalize(k), l.drop_first()), l[0])
            } else {
                (m.write_list(normalize(k), l), nil_text())
            }
        },
        CommandModel::RPop(k) => {
            let l = m.list_or_empty(normalize(k));
            if l.len() > 0 {
                (m.write_list(normalize(k), l.drop_last()), l.last())
            } else {
                (m.write_list(normalize(k), l), nil_text())
            }
        },
        CommandModel::LLen(k) => (m, decimal(m.list_or_empty(normalize(k)).len() as int)),
        CommandModel::Multi => (m.begin(), "OK"@),
        CommandModel::Exec => {
            if m.in_transaction() {
                (m.commit(), lines(m.commit_results()) + "OK\n"@)
            } else {
                (m, "ERR: "@ + "No active transaction to commit"@ + "\n"@)
            }
        },
        CommandModel::Discard => {
            if m.in_transaction() {
                (m.rollback(), "OK"@)
            } else {
                (m, "ERR: "@ + "No active transaction to rollback"@)
            }
        },
        CommandModel::Unknown(t) => (m, "ERR unknown command '"@ + t + "'"@),
    }
}

/// The engine state after a batch of commands, and the replies in order.
pub open spec fn run(m: StoreModel, cs: Seq<CommandModel>) -> (StoreModel, Seq<Text>)
    decreases cs.len(),
{
    if cs.len() == 0 {
        (m, Seq::empty())
    } else {
        let (m1, rs) = run(m, cs.drop_last());
        let (m2, r) = step(m1, cs.last());
        (m2, rs.push(r))
    }
}

/// A batch gives one reply per command.
pub proof fn lemma_run_len(m: StoreModel, cs: Seq<CommandModel>)
    ensures
        run(m, cs).1.len() == cs.len(),
    decreases cs.len(),
{
    if cs.len() > 0 {
        lemma_run_len(m, cs.drop_last());
    }
}

/// The lines of a committed transaction's results, then `OK`.
fn exec_reply(results: &Vec<String>) -> (r: String)
    ensures
        r@ == lines(texts(*results)) + "OK\n"@,
{
    let mut out = String::new();
    let mut i: usize = 0;
    proof {
        assert(texts(*results).subrange(0, 0) =~= Seq::<Text>::empty());
    }
    while i < results.len()
        invariant
            i <= results@.len(),
            out@ == lines(texts(*results).subrange(0, i as int)),
        decreases results@.len() - i,
    {
        append_text(&mut out, results[i].as_str());
        append_text(&mut out, "\n");
        i = i + 1;
        proof {
            let sub = texts(*results).subrange(0, i as int);
            assert(sub.drop_last() =~= texts(*results).subrange(0, i - 1));
            assert(sub.last() == results@[i - 1]@);
        }
    }
    append_text(&mut out, "OK\n");
    proof {
        assert(texts(*results).subrange(0, results@.len() as int) =~= texts(*results));
    }
    out
}

fn text_of(s: &str) -> (r: String)
    ensures
        r@ == s@,
{
    String::from_str(s)
}

/// Runs commands against an engine that it owns.
pub struct CommandExecutor {
    storage: MemoryStorage,
}

impl CommandExecutor {
    pub closed spec fn wf(&self) -> bool {
        self.storage.wf()
    }

    pub closed spec fn view(&self) -> StoreModel {
        self.storage@
    }

    pub fn new(storage: MemoryStorage) -> (r: Self)
        requires
            storage.wf(),
        ensures
            r.wf(),
            r@ == storage@,
    {
        CommandExecutor { storage }
    }

    /// The engine that the commands run against.
    pub fn storage(&self) -> (r: &MemoryStorage)
        requires
            self.wf(),
        ensures
            r.wf(),
            r@ == self@,
    {
        &self.storage
    }

    /// Runs one command and gives its reply.
    pub fn execute_command(&mut self, command: Command) -> (r: String)
        requires
            old(self).wf(),
        ensures
            final(self).wf(),
            (final(self)@, r@) == step(old(self)@, command@),
    {
        self.execute(&command)
    }

    fn execute(&mut self, command: &Command) -> (r: String)
        requires
            old(self).wf(),
        ensures
            final(self).wf(),
            (final(self)@, r@) == step(old(self)@, command@),
    {
        match command {
            Command::SetValue(key, value) => {
                self.storage.set(key.clone(), value.clone());
                text_of("OK")
            },
            Command::Get(key) => match self.storage.get(key.as_str()) {
                Some(v) => v,
                None => text_of("(nil)"),
            },
            Command::Del(key) => {
                if self.storage.del(key.as_str()) {
                    text_of("1")
                } else {
                    text_of("0")
                }
            },
            Command::Incr(key) => format_i64(self.storage.incr(key.as_str())),
            Command::Decr(key) => format_i64(self.storage.decr(key.as_str())),
            Command::LPush(key, value) => format_usize(self.storage.lpush(key.as_str(), value.clone())),
            Command::RPush(key, value) => format_usize(self.storage.rpush(key.as_str(), value.clone())),
            Command::LPop(key) => match self.storage.lpop(key.as_str()) {
                Some(v) => v,
                None => text_of("(nil)"),
            },
            Command::RPop(key) => match self.storage.rpop(key.as_str()) {
                Some(v) => v,
                None => text_of("(nil)"),
            },
            Command::LLen(key) => format_usize(self.storage.llen(key.as_str())),
            Command::Multi => {
                self.storage.start_transaction();
                text_of("OK")
            },
            Command::Exec => match self.storage.commit_transaction() {
                Ok(results) => exec_reply(&results),
                Err(e) => {
                    let mut out = text_of("ERR: ");
                    append_text(&mut out, e.as_str());
                    append_text(&mut out, "\n");
                    out
                },
            },
            Command::Discard => match self.storage.rollback_transaction() {
                Ok(()) => text_of("OK"),
                Err(e) => {
                    let mut out = text_of("ERR: ");
                    append_text(&mut out, e.as_str());
                    out
                },
            },
            Command::Unknown(t) => {
                let mut out = text_of("ERR unknown command '");
                append_text(&mut out, t.as_str());
                append_text(&mut out, "'");
                out
            },
        }
    }

    /// Runs a batch of commands in order, giving one reply for each.
    pub fn execute_transaction(&mut self, commands: &[Command]) -> (r: Vec<String>)
        requires
            old(self).wf(),
        ensures
            final(self).wf(),
            (final(self)@, texts(r)) == run(old(self)@, commands@.map_values(|c: Command| c@)),
    {
        let ghost m0 = self@;
        let ghost cs = commands@.map_values(|c: Command| c@);
        let mut results: Vec<String> = Vec::new();
        let mut i: usize = 0;
        proof {
            assert(cs.subrange(0, 0) =~= Seq::<CommandModel>::empty());
            assert(texts(results) =~= Seq::<Text>::empty());
        }
        while i < commands.len()
            invariant
                self.wf(),
                i <= commands@.len(),
                cs == commands@.map_values(|c: Command| c@),
                (self@, texts(results)) == run(m0, cs.subrange(0, i as int)),
            decreases commands@.len() - i,
        {
            let ghost before = texts(results);
            let r = self.execute(&commands[i]);
            results.push(r);
            i = i + 1;
            proof {
                let sub = cs.subrange(0, i as int);
                assert(sub.drop_last() =~= cs.subrange(0, i - 1));
                assert(sub.last() == commands@[i - 1]@);
                assert(texts(results) =~= before.push(r@));
            }
        }
        proof {
            assert(cs.subrange(0, commands@.len() as int) =~= cs);
        }
        results
    }
}

} // verus!
