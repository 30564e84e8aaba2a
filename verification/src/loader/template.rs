//! The chat template, compiled at load time so a broken template fails at
//! load, not at first chat. Rendering and compiling are minijinja's; the
//! library names their results and checks what it needs of them.

use minijinja::Value;
use vstd::prelude::*;

use crate::loader::error::{ErrKind, LoaderError};
use crate::loader::yamf::pair_views;
use crate::text::text;

verus! {

#[verifier::external_type_specification]
#[verifier::external_body]
pub struct ExEnvironment<'source>(minijinja::Environment<'source>);

/// What minijinja makes of `source` as the template named "chat" in an
/// environment with the Python-compatible string methods installed:
/// `Ok` when it compiles, else the error's text.
pub uninterp spec fn chat_compile(source: Seq<char>) -> Result<(), Seq<char>>;

/// What minijinja renders from the compiled `source` for the conversation
/// `turns` (each a role and its content, in order) with the context's
/// `add_generation_prompt` and `enable_thinking` flags: the text, or the
/// error's text.
pub uninterp spec fn chat_render(
    source: Seq<char>,
    turns: Seq<(Seq<char>, Seq<char>)>,
    add_generation_prompt: bool,
    enable_thinking: bool,
) -> Result<Seq<char>, Seq<char>>;

/// The smoke conversation: a user turn, then an assistant turn.
pub open spec fn smoke_turns(user: Seq<char>, assistant: Seq<char>) -> Seq<(Seq<char>, Seq<char>)> {
    seq![("user"@, user), ("assistant"@, assistant)]
}

/// The chat template, parsed and validated at load time. Wraps a
/// minijinja environment owning the compiled template.
pub struct ChatTemplate {
    env: minijinja::Environment<'static>,
    source: String,
}

/// Compile `source` as the template "chat" (minijinja's
/// `Environment::add_template_owned`, after installing minijinja-contrib's
/// `pycompat::unknown_method_callback`, which the real Qwen3 template's
/// `startswith`/`strip` calls need). The contract claims that success and
/// the error text are what `chat_compile` names for this source.
#[verifier::external_body]
fn compile_chat(source: &str) -> (r: Result<minijinja::Environment<'static>, String>)
    ensures
        match chat_compile(source@) {
            Ok(_) => r is Ok,
            Err(text) => r matches Err(e) && e@ == text,
        },
{
    let mut env = minijinja::Environment::new();
    env.set_unknown_method_callback(minijinja_contrib::pycompat::unknown_method_callback);
    match env.add_template_owned("chat".to_string(), source.to_string()) {
        Ok(()) => Ok(env),
        Err(e) => Err(e.to_string()),
    }
}

/// Render the compiled template (minijinja's `Environment::get_template`
/// then `Template::render`) with a context holding `messages` (one map of
/// `role` and `content` per turn), `add_generation_prompt` and
/// `enable_thinking`. The contract claims the outcome is what
/// `chat_render` names for the template's source and these values; the
/// template's environment was compiled from exactly that source by
/// `ChatTemplate::new`.
#[verifier::external_body]
fn render_chat(
    t: &ChatTemplate,
    turns: &Vec<(String, String)>,
    add_generation_prompt: bool,
    enable_thinking: bool,
) -> (r: Result<String, String>)
    ensures
        match chat_render(t.source@, pair_views(turns@), add_generation_prompt, enable_thinking) {
            Ok(s) => r matches Ok(x) && x@ == s,
            Err(e) => r matches Err(x) && x@ == e,
        },
{
    let messages = Value::from_iter(turns.iter().map(|(role, content)| Value::from_iter([("role", Value::from(role.as_str())), ("content", Value::from(content.as_str()))])));
    let ctx = Value::from_iter([("messages", messages), ("add_generation_prompt", Value::from(add_generation_prompt)), ("enable_thinking", Value::from(enable_thinking))]);
    let template = t.env.get_template("chat").map_err(|e| e.to_string())?;
    template.render(ctx).map_err(|e| e.to_string())
}

impl ChatTemplate {
    pub closed spec fn spec_source(&self) -> Seq<char> {
        self.source@
    }

    /// Compile `source`; a syntax error refuses as `Template` with
    /// minijinja's message.
    pub fn new(source: String) -> (r: Result<ChatTemplate, LoaderError>)
        ensures
            r is Ok <==> chat_compile(source@) is Ok,
            r matches Ok(t) ==> t.spec_source() == source@,
            r matches Err(e) ==> (e matches LoaderError::Template { reason } && chat_compile(
                source@,
            ) == Err::<(), Seq<char>>(reason@)),
    {
        match compile_chat(source.as_str()) {
            Ok(env) => Ok(ChatTemplate { env, source }),
            Err(reason) => Err(LoaderError::Template { reason }),
        }
    }

    /// The template's source text.
    pub fn source(&self) -> (r: &str)
        ensures
            r@ == self.spec_source(),
    {
        self.source.as_str()
    }

    /// The rendered smoke conversation: a user turn `user`, an assistant
    /// turn `assistant`, generation prompt on, thinking off.
    pub fn render_smoke(&self, user: &str, assistant: &str) -> (r: Result<String, String>)
        ensures
            match chat_render(self.spec_source(), smoke_turns(user@, assistant@), true, false) {
                Ok(s) => r matches Ok(x) && x@ == s,
                Err(e) => r matches Err(x) && x@ == e,
            },
    {
        let mut turns: Vec<(String, String)> = Vec::new();
        turns.push((text("user"), text(user)));
        turns.push((text("assistant"), text(assistant)));
        proof {
            assert(pair_views(turns@) =~= smoke_turns(user@, assistant@));
        }
        render_chat(self, &turns, true, false)
    }
}

} // verus!
