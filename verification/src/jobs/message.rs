//! Messages to the user: the name of a text, and the values that stand in it.

use vstd::prelude::*;

verus! {

/// A value in a message.
#[derive(Debug)]
pub enum Value {
    Number { number: u64 },
    Text { text: String },
    /// Another message, which may hold a count.
    Phrase { key: &'static str, count: Option<u64> },
}

#[verifier::ext_equal]
pub enum ValueModel {
    Number { number: u64 },
    Text { text: Seq<char> },
    Phrase { key: Seq<char>, count: Option<u64> },
}

impl View for Value {
    type V = ValueModel;

    open spec fn view(&self) -> ValueModel {
        match self {
            Value::Number { number } => ValueModel::Number { number: *number },
            Value::Text { text } => ValueModel::Text { text: text@ },
            Value::Phrase { key, count } => ValueModel::Phrase { key: key@, count: *count },
        }
    }
}

/// A named value in a message.
#[derive(Debug)]
pub struct Argument {
    pub name: &'static str,
    pub value: Value,
}

#[verifier::ext_equal]
pub struct ArgumentModel {
    pub name: Seq<char>,
    pub value: ValueModel,
}

impl View for Argument {
    type V = ArgumentModel;

    open spec fn view(&self) -> ArgumentModel {
        ArgumentModel { name: self.name@, value: self.value@ }
    }
}

/// A message to the user.
#[derive(Debug)]
pub struct Message {
    pub key: &'static str,
    pub arguments: Vec<Argument>,
}

#[verifier::ext_equal]
pub struct MessageModel {
    pub key: Seq<char>,
    pub arguments: Seq<ArgumentModel>,
}

pub open spec fn argument_models(arguments: Seq<Argument>) -> Seq<ArgumentModel> {
    arguments.map_values(|a: Argument| a@)
}

impl View for Message {
    type V = MessageModel;

    open spec fn view(&self) -> MessageModel {
        MessageModel { key: self.key@, arguments: argument_models(self.arguments@) }
    }
}

/// A message without values.
pub open spec fn said(key: Seq<char>) -> MessageModel {
    MessageModel { key, arguments: seq![] }
}

impl MessageModel {
    /// The message with a number in it.
    pub open spec fn with_number(self, name: Seq<char>, number: u64) -> MessageModel {
        MessageModel {
            arguments: self.arguments.push(
                ArgumentModel { name, value: ValueModel::Number { number } },
            ),
            ..self
        }
    }

    /// The message with a text in it.
    pub open spec fn with_text(self, name: Seq<char>, text: Seq<char>) -> MessageModel {
        MessageModel {
            arguments: self.arguments.push(ArgumentModel { name, value: ValueModel::Text { text } }),
            ..self
        }
    }

    /// The message with another one in it.
    pub open spec fn with_phrase(
        self,
        name: Seq<char>,
        key: Seq<char>,
        count: Option<u64>,
    ) -> MessageModel {
        MessageModel {
            arguments: self.arguments.push(
                ArgumentModel { name, value: ValueModel::Phrase { key, count } },
            ),
            ..self
        }
    }
}

impl Message {
    pub fn new(key: &'static str) -> (message: Message)
        ensures
            message@ == said(key@),
    {
        let message = Message { key, arguments: Vec::new() };
        assert(argument_models(message.arguments@) =~= seq![]);
        message
    }

    pub fn number(self, name: &'static str, number: u64) -> (message: Message)
        ensures
            message@ == self@.with_number(name@, number),
    {
        self.with(name, Value::Number { number })
    }

    pub fn text(self, name: &'static str, text: &String) -> (message: Message)
        ensures
            message@ == self@.with_text(name@, text@),
    {
        self.with(name, Value::Text { text: text.clone() })
    }

    pub fn phrase(
        self,
        name: &'static str,
        key: &'static str,
        count: Option<u64>,
    ) -> (message: Message)
        ensures
            message@ == self@.with_phrase(name@, key@, count),
    {
        self.with(name, Value::Phrase { key, count })
    }

    fn with(self, name: &'static str, value: Value) -> (message: Message)
        ensures
            message@.key == self@.key,
            message@.arguments == self@.arguments.push(
                ArgumentModel { name: name@, value: value@ },
            ),
    {
        let mut arguments = self.arguments;
        let ghost before = arguments@;
        arguments.push(Argument { name, value });
        assert(argument_models(arguments@) =~= argument_models(before).push(
            ArgumentModel { name: name@, value: value@ },
        ));
        Message { key: self.key, arguments }
    }
}

/// True when a message holds a number under a name.
pub open spec fn shows_number(m: MessageModel, name: Seq<char>, number: u64) -> bool {
    exists|i: int|
        0 <= i < m.arguments.len() && #[trigger] m.arguments[i] == (ArgumentModel {
            name,
            value: ValueModel::Number { number },
        })
}

/// True when a message holds a text under a name.
pub open spec fn shows_text(m: MessageModel, name: Seq<char>, text: Seq<char>) -> bool {
    exists|i: int|
        0 <= i < m.arguments.len() && #[trigger] m.arguments[i] == (ArgumentModel {
            name,
            value: ValueModel::Text { text },
        })
}

/// What is put in a message is in it, behind what was there, and its name stays.
pub proof fn law_messages_hold_what_is_put_in(
    m: MessageModel,
    name: Seq<char>,
    number: u64,
    text: Seq<char>,
)
    ensures
        said(m.key).key == m.key && said(m.key).arguments.len() == 0,
        ({
            let more = m.with_number(name, number);
            more.key == m.key && more.arguments.drop_last() == m.arguments && shows_number(
                more,
                name,
                number,
            )
        }),
        ({
            let more = m.with_text(name, text);
            more.key == m.key && more.arguments.drop_last() == m.arguments && shows_text(
                more,
                name,
                text,
            )
        }),
{
    let n = m.arguments.len() as int;
    assert(m.with_number(name, number).arguments[n].name == name);
    assert(m.with_text(name, text).arguments[n].name == name);
    assert(m.with_number(name, number).arguments.drop_last() =~= m.arguments);
    assert(m.with_text(name, text).arguments.drop_last() =~= m.arguments);
}

} // verus!
