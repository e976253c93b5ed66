use vstd::prelude::*;

use crate::errors::CustomError;
use crate::toposort::contains_id;

verus! {

/// How an annotator property is produced: by executing a command directly,
/// by running it through a shell, or by rendering a template alone. Commands
/// may report a boolean result instead of their output.
#[derive(Debug, Clone, Copy)]
pub enum CommandConfig {
    ExecCommand { is_bool: bool },
    ShellCommand { is_bool: bool },
    Template,
}

impl CommandConfig {
    /// A command configuration: through the shell or executed directly.
    pub fn new_command(is_shell: bool, is_bool: bool) -> (r: CommandConfig)
        ensures
            is_shell ==> r == (CommandConfig::ShellCommand { is_bool }),
            !is_shell ==> r == (CommandConfig::ExecCommand { is_bool }),
    {
        if is_shell {
            CommandConfig::ShellCommand { is_bool }
        } else {
            CommandConfig::ExecCommand { is_bool }
        }
    }

    pub fn new_shell_command() -> (r: CommandConfig)
        ensures
            r == (CommandConfig::ShellCommand { is_bool: false }),
    {
        CommandConfig::ShellCommand { is_bool: false }
    }

    pub fn new_exec_command() -> (r: CommandConfig)
        ensures
            r == (CommandConfig::ExecCommand { is_bool: false }),
    {
        CommandConfig::ExecCommand { is_bool: false }
    }

    pub fn new_template() -> (r: CommandConfig)
        ensures
            r == CommandConfig::Template,
    {
        CommandConfig::Template
    }

    /// Marks a command as reporting a boolean result. Templates have no
    /// result to interpret, so they are left out by the caller.
    pub fn set_bool(self) -> (r: CommandConfig)
        requires
            !(self is Template),
        ensures
            self is ExecCommand ==> r == (CommandConfig::ExecCommand { is_bool: true }),
            self is ShellCommand ==> r == (CommandConfig::ShellCommand { is_bool: true }),
    {
        match self {
            CommandConfig::ExecCommand { .. } => CommandConfig::ExecCommand { is_bool: true },
            CommandConfig::ShellCommand { .. } => CommandConfig::ShellCommand { is_bool: true },
            CommandConfig::Template => CommandConfig::Template,
        }
    }

    pub fn is_shell_command(&self) -> (r: bool)
        ensures
            r == (self is ShellCommand),
    {
        matches!(self, CommandConfig::ShellCommand { .. })
    }

    pub fn is_exec_command(&self) -> (r: bool)
        ensures
            r == (self is ExecCommand),
    {
        matches!(self, CommandConfig::ExecCommand { .. })
    }

    pub fn is_template(&self) -> (r: bool)
        ensures
            r == (self is Template),
    {
        matches!(self, CommandConfig::Template)
    }

    pub fn is_command(&self) -> (r: bool)
        ensures
            r == (self is ExecCommand || self is ShellCommand),
    {
        matches!(
            self,
            CommandConfig::ExecCommand { .. } | CommandConfig::ShellCommand { .. }
        )
    }

    pub fn is_bool_result(&self) -> (r: bool)
        ensures
            r == (self matches CommandConfig::ExecCommand { is_bool: true }
                || self matches CommandConfig::ShellCommand { is_bool: true }),
    {
        matches!(
            self,
            CommandConfig::ExecCommand { is_bool: true }
                | CommandConfig::ShellCommand { is_bool: true }
        )
    }
}

/// A parsed property argument: its name, its command or template text, and
/// its configuration.
pub struct PropSpec {
    pub name: String,
    pub template: String,
    pub config: CommandConfig,
}

/// The first position of `=` in `s`, or -1.
pub open spec fn first_eq(s: Seq<char>) -> int
    decreases s.len(),
{
    if s.len() == 0 {
        -1
    } else if s[0] == '=' {
        0
    } else {
        let r = first_eq(s.drop_first());
        if r < 0 {
            -1
        } else {
            r + 1
        }
    }
}

/// `first_eq` names the first `=`, and -1 means there is none.
pub proof fn lemma_first_eq(s: Seq<char>)
    ensures
        first_eq(s) == -1 ==> forall|j: int| 0 <= j < s.len() ==> s[j] != '=',
        first_eq(s) >= 0 ==> 0 <= first_eq(s) < s.len() && s[first_eq(s)] == '='
            && forall|j: int| 0 <= j < first_eq(s) ==> s[j] != '=',
    decreases s.len(),
{
    if s.len() > 0 && s[0] != '=' {
        lemma_first_eq(s.drop_first());
        let rest = s.drop_first();
        assert forall|j: int| 1 <= j < s.len() implies rest[j - 1] == s[j] by {}
        if first_eq(rest) >= 0 {
            assert(s[first_eq(s)] == rest[first_eq(rest)]);
        }
    }
}

/// Splits a `name=command` property argument. A `?` right before the `=` of
/// a command marks a boolean result and is dropped from the name; an
/// argument without `=` is rejected.
#[verifier::loop_isolation(false)]
pub fn parse_prop(argument: &String, config: CommandConfig) -> (r: Result<PropSpec, CustomError>)
    ensures
        r is Ok <==> first_eq(argument@) >= 0,
        r matches Err(CustomError::PropMissingEqualsError { argument: a }) ==> a@ == argument@,
        r is Err ==> r->Err_0 is PropMissingEqualsError,
        r matches Ok(p) ==> ({
            let q = first_eq(argument@);
            let marked = (config is ExecCommand || config is ShellCommand) && q >= 1
                && argument@[q - 1] == '?';
            &&& p.template@ == argument@.skip(q + 1)
            &&& marked ==> p.name@ == argument@.take(q - 1)
            &&& !marked ==> p.name@ == argument@.take(q) && p.config == config
            &&& (marked && config is ExecCommand) ==> p.config == (CommandConfig::ExecCommand {
                is_bool: true,
            })
            &&& (marked && config is ShellCommand) ==> p.config == (CommandConfig::ShellCommand {
                is_bool: true,
            })
        }),
{
    let s = argument.as_str();
    let len = s.unicode_len();
    let mut i: usize = 0;
    let mut pos: usize = 0;
    let mut found = false;
    while i < len && !found
        invariant
            i <= len,
            len == argument@.len(),
            !found ==> forall|j: int| 0 <= j < i ==> argument@[j] != '=',
            found ==> pos < len && argument@[pos as int] == '=' && forall|j: int|
                0 <= j < pos ==> argument@[j] != '=',
        decreases len - i + (if found { 0int } else { 1int }),
    {
        if s.get_char(i) == '=' {
            pos = i;
            found = true;
        } else {
            i = i + 1;
        }
    }
    if !found {
        proof {
            lemma_first_eq(argument@);
            if first_eq(argument@) >= 0 {
                assert(argument@[first_eq(argument@)] == '=');
                assert(false);
            }
        }
        return Err(CustomError::PropMissingEqualsError { argument: argument.clone() });
    }
    proof {
        lemma_first_eq(argument@);
        if first_eq(argument@) == -1 {
            assert(argument@[pos as int] != '=');
            assert(false);
        }
        let q = first_eq(argument@);
        if q < pos as int {
            assert(argument@[q] != '=');
            assert(false);
        }
        if q > pos as int {
            assert(argument@[pos as int] != '=');
            assert(false);
        }
        assert(q == pos as int);
    }
    let template = String::from_str(s.substring_char(pos + 1, len));
    let is_cmd = config.is_command();
    if is_cmd && pos >= 1 && s.get_char(pos - 1) == '?' {
        let name = String::from_str(s.substring_char(0, pos - 1));
        let marked_config = config.set_bool();
        Ok(PropSpec { name, template, config: marked_config })
    } else {
        let name = String::from_str(s.substring_char(0, pos));
        Ok(PropSpec { name, template, config })
    }
}

/// The registered annotator properties: their names in registration order,
/// each with its configuration. The surrounding tooling renders and runs the
/// commands themselves; the table owns the bookkeeping and refuses a name
/// registered twice.
pub struct CommandTable {
    pub names: Vec<String>,
    pub configs: Vec<CommandConfig>,
}

impl CommandTable {
    /// The table is consistent: one configuration per name, names distinct.
    pub open spec fn wf(&self) -> bool {
        &&& self.names@.len() == self.configs@.len()
        &&& self.names.deep_view().no_duplicates()
    }

    pub fn new() -> (r: CommandTable)
        ensures
            r.wf(),
            r.names@.len() == 0,
    {
        let r = CommandTable { names: Vec::new(), configs: Vec::new() };
        proof {
            assert(r.names.deep_view() =~= Seq::<Seq<char>>::empty());
        }
        r
    }

    /// Registers a property under a fresh name, keeping registration order;
    /// a repeated name is refused and leaves the table unchanged.
    pub fn add_command(&mut self, name: &String, config: CommandConfig) -> (r: Result<
        (),
        CustomError,
    >)
        requires
            old(self).wf(),
        ensures
            final(self).wf(),
            r is Ok <==> !old(self).names.deep_view().contains(name@),
            r is Ok ==> final(self).names@ == old(self).names@.push(*name),
            r is Ok ==> final(self).configs@ == old(self).configs@.push(config),
            r is Err ==> *final(self) == *old(self) && r->Err_0
                is DuplicatePropertyNameError,
            r matches Err(CustomError::DuplicatePropertyNameError { name: n }) ==> n@ == name@,
    {
        if contains_id(&self.names, name) {
            return Err(CustomError::DuplicatePropertyNameError { name: name.clone() });
        }
        let ghost pre = self.names.deep_view();
        self.names.push(name.clone());
        self.configs.push(config);
        proof {
            assert(self.names.deep_view() =~= pre.push(name@));
            assert forall|a: int, b: int|
                0 <= a < b < self.names.deep_view().len() implies self.names.deep_view()[a]
                != self.names.deep_view()[b] by {
                if b < pre.len() {
                    assert(self.names.deep_view()[a] == pre[a]);
                    assert(self.names.deep_view()[b] == pre[b]);
                } else {
                    assert(self.names.deep_view()[b] == name@);
                    assert(self.names.deep_view()[a] == pre[a]);
                    assert(!pre.contains(name@));
                }
            }
        }
        Ok(())
    }

    /// The configuration registered under `name`, if any.
    #[verifier::loop_isolation(false)]
    pub fn config_of(&self, name: &String) -> (r: Option<CommandConfig>)
        requires
            self.wf(),
        ensures
            r is Some <==> self.names.deep_view().contains(name@),
            r matches Some(c) ==> exists|j: int|
                0 <= j < self.names@.len() && self.names@[j]@ == name@ && self.configs@[j] == c,
    {
        let mut i: usize = 0;
        while i < self.names.len()
            invariant
                i <= self.names@.len(),
                self.wf(),
                forall|j: int| 0 <= j < i ==> self.names.deep_view()[j] != name@,
            decreases self.names@.len() - i,
        {
            if self.names[i].eq(name) {
                proof {
                    assert(self.names@[i as int]@ == name@);
                    assert(self.names.deep_view()[i as int] == name@);
                }
                return Some(self.configs[i]);
            }
            i = i + 1;
        }
        None
    }

    /// How many properties are registered.
    pub fn len(&self) -> (r: usize)
        ensures
            r == self.names@.len(),
    {
        self.names.len()
    }

    /// The name at a registration position.
    pub fn name_at(&self, i: usize) -> (r: &String)
        requires
            i < self.names@.len(),
        ensures
            r@ == self.names@[i as int]@,
    {
        &self.names[i]
    }

    /// The configuration at a registration position.
    pub fn config_at(&self, i: usize) -> (r: CommandConfig)
        requires
            self.wf(),
            i < self.names@.len(),
        ensures
            r == self.configs@[i as int],
    {
        self.configs[i]
    }
}

/// A character that survives environment-variable rewriting: an ASCII
/// letter, digit, or underscore.
pub open spec fn is_word_char(c: char) -> bool {
    let v = c as u32;
    (48 <= v && v <= 57) || (65 <= v && v <= 90) || (97 <= v && v <= 122) || v == 95
}

/// The rewriting of a key from position `i` on: word characters kept, each
/// run of other characters replaced by one underscore. `sep` records
/// whether such a run is already open.
pub open spec fn collapse_from(s: Seq<char>, i: int, sep: bool) -> Seq<char>
    decreases s.len() - i,
{
    if i < 0 || i >= s.len() {
        Seq::empty()
    } else if is_word_char(s[i]) {
        seq![s[i]] + collapse_from(s, i + 1, false)
    } else if sep {
        collapse_from(s, i + 1, true)
    } else {
        seq!['_'] + collapse_from(s, i + 1, true)
    }
}

/// The full rewriting of a key.
pub open spec fn collapsed(s: Seq<char>) -> Seq<char> {
    collapse_from(s, 0, false)
}

/// What str::to_uppercase returns: the Unicode uppercase mapping, a
/// function of the characters alone.
pub uninterp spec fn upper_of(s: Seq<char>) -> Seq<char>;

/// Relies on str::to_uppercase: the result depends on the characters alone.
#[verifier::external_body]
fn to_upper(s: &String) -> (r: String)
    ensures
        r@ == upper_of(s@),
{
    s.to_uppercase()
}

/// The environment variable carrying a component field for a command: the
/// prefix, then the key with every run of non-word characters collapsed to
/// one underscore, the whole uppercased.
#[verifier::loop_isolation(false)]
pub fn key_to_env_var(key: &String, prefix: &String) -> (r: String)
    ensures
        r@ == upper_of(prefix@ + collapsed(key@)),
{
    let s = key.as_str();
    let len = s.unicode_len();
    let mut acc = prefix.clone();
    let mut sep = false;
    let mut i: usize = 0;
    proof {
        assert(acc@ =~= prefix@ + Seq::<char>::empty());
    }
    while i < len
        invariant
            i <= len,
            len == key@.len(),
            collapsed(key@) == acc@.skip(prefix@.len() as int) + collapse_from(
                key@,
                i as int,
                sep,
            ),
            acc@.len() >= prefix@.len(),
            acc@.take(prefix@.len() as int) == prefix@,
        decreases len - i,
    {
        let ghost accp = acc@;
        let c = s.get_char(i);
        let word = (48 <= c as u32 && c as u32 <= 57) || (65 <= c as u32 && c as u32 <= 90) || (97
            <= c as u32 && c as u32 <= 122) || c as u32 == 95;
        proof {
            assert(word == is_word_char(key@[i as int]));
        }
        if word {
            let piece = s.substring_char(i, i + 1);
            acc.append(piece);
            sep = false;
            proof {
                assert(piece@ =~= seq![key@[i as int]]);
                assert(acc@ =~= accp + seq![key@[i as int]]);
                assert(acc@.skip(prefix@.len() as int) =~= accp.skip(prefix@.len() as int)
                    + seq![key@[i as int]]);
                assert(acc@.skip(prefix@.len() as int) + collapse_from(key@, i as int + 1, false)
                    =~= accp.skip(prefix@.len() as int) + collapse_from(key@, i as int, sep));
                assert(acc@.take(prefix@.len() as int) =~= prefix@);
            }
        } else if !sep {
            acc.append("_");
            sep = true;
            proof {
                reveal_strlit("_");
                assert("_"@ =~= seq!['_']);
                assert(acc@ =~= accp + seq!['_']);
                assert(acc@.skip(prefix@.len() as int) =~= accp.skip(prefix@.len() as int)
                    + seq!['_']);
                assert(acc@.skip(prefix@.len() as int) + collapse_from(key@, i as int + 1, true)
                    =~= accp.skip(prefix@.len() as int) + collapse_from(key@, i as int, false));
                assert(acc@.take(prefix@.len() as int) =~= prefix@);
            }
        } else {
            proof {
                assert(collapse_from(key@, i as int + 1, true) == collapse_from(
                    key@,
                    i as int,
                    true,
                ));
            }
        }
        i = i + 1;
    }
    proof {
        assert(collapse_from(key@, len as int, sep) =~= Seq::<char>::empty());
        assert(acc@.skip(prefix@.len() as int) + Seq::<char>::empty() =~= acc@.skip(
            prefix@.len() as int,
        ));
        assert(acc@ =~= prefix@ + collapsed(key@)) by {
            assert(acc@ =~= acc@.take(prefix@.len() as int) + acc@.skip(prefix@.len() as int));
        }
    }
    to_upper(&acc)
}

} // verus!
