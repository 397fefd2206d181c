//! The syntax tree: classes, methods and expressions.

use vstd::prelude::*;

verus! {

/// A decimal literal, kept as it was written: its digits with the point, and
/// whether a minus sign stood before them.
#[derive(Debug, PartialEq)]
pub struct Decimal {
    pub negative: bool,
    pub lexeme: String,
}

impl Clone for Decimal {
    fn clone(&self) -> (copy: Decimal)
        ensures
            copy@ == self@,
    {
        Decimal { negative: self.negative, lexeme: self.lexeme.clone() }
    }
}

/// What a decimal literal stands for.
pub ghost struct DecimalView {
    pub negative: bool,
    pub lexeme: Seq<char>,
}

impl View for Decimal {
    type V = DecimalView;

    open spec fn view(&self) -> DecimalView {
        DecimalView { negative: self.negative, lexeme: self.lexeme@ }
    }
}

/// An expression, or a statement that returns the value of one.
#[allow(inconsistent_fields)]
#[derive(Debug, PartialEq)]
pub enum Expression {
    Assignment { variables: Vec<String>, value: Box<Expression> },
    BinaryMessage { message: String, left: Box<Expression>, right: Box<Expression> },
    Block { parameters: Vec<String>, locals: Vec<String>, body: Vec<Expression> },
    KeywordMessage { message: String, receiver: Box<Expression>, parameters: Vec<Expression> },
    LiteralBoolean(bool),
    LiteralDouble(Decimal),
    LiteralInteger(i64),
    LiteralNil,
    LiteralString(String),
    LiteralSymbol(String),
    Return(Box<Expression>),
    UnaryMessage { message: String, receiver: Box<Expression> },
    Variable(String),
}

/// What an expression stands for: the same tree, with texts and lists as
/// sequences.
#[allow(inconsistent_fields)]
pub ghost enum ExpressionView {
    Assignment { variables: Seq<Seq<char>>, value: Box<ExpressionView> },
    BinaryMessage { message: Seq<char>, left: Box<ExpressionView>, right: Box<ExpressionView> },
    Block { parameters: Seq<Seq<char>>, locals: Seq<Seq<char>>, body: Seq<ExpressionView> },
    KeywordMessage {
        message: Seq<char>,
        receiver: Box<ExpressionView>,
        parameters: Seq<ExpressionView>,
    },
    LiteralBoolean(bool),
    LiteralDouble(DecimalView),
    LiteralInteger(i64),
    LiteralNil,
    LiteralString(Seq<char>),
    LiteralSymbol(Seq<char>),
    Return(Box<ExpressionView>),
    UnaryMessage { message: Seq<char>, receiver: Box<ExpressionView> },
    Variable(Seq<char>),
}

/// What a list of names stands for.
pub open spec fn strings_view(names: Seq<String>) -> Seq<Seq<char>> {
    names.map_values(|name: String| name@)
}

/// What an expression stands for.
pub open spec fn expression_view(expression: Expression) -> ExpressionView
    decreases expression,
{
    match expression {
        Expression::Assignment { variables, value } => ExpressionView::Assignment {
            variables: strings_view(variables@),
            value: Box::new(expression_view(*value)),
        },
        Expression::BinaryMessage { message, left, right } => ExpressionView::BinaryMessage {
            message: message@,
            left: Box::new(expression_view(*left)),
            right: Box::new(expression_view(*right)),
        },
        Expression::Block { parameters, locals, body } => ExpressionView::Block {
            parameters: strings_view(parameters@),
            locals: strings_view(locals@),
            body: Seq::new(
                body@.len(),
                |i: int|
                    if 0 <= i < body@.len() {
                        expression_view(body@[i])
                    } else {
                        ExpressionView::LiteralNil
                    },
            ),
        },
        Expression::KeywordMessage { message, receiver, parameters } => {
            ExpressionView::KeywordMessage {
                message: message@,
                receiver: Box::new(expression_view(*receiver)),
                parameters: Seq::new(
                    parameters@.len(),
                    |i: int|
                        if 0 <= i < parameters@.len() {
                            expression_view(parameters@[i])
                        } else {
                            ExpressionView::LiteralNil
                        },
                ),
            }
        },
        Expression::LiteralBoolean(value) => ExpressionView::LiteralBoolean(value),
        Expression::LiteralDouble(value) => ExpressionView::LiteralDouble(value@),
        Expression::LiteralInteger(value) => ExpressionView::LiteralInteger(value),
        Expression::LiteralNil => ExpressionView::LiteralNil,
        Expression::LiteralString(value) => ExpressionView::LiteralString(value@),
        Expression::LiteralSymbol(value) => ExpressionView::LiteralSymbol(value@),
        Expression::Return(value) => ExpressionView::Return(Box::new(expression_view(*value))),
        Expression::UnaryMessage { message, receiver } => ExpressionView::UnaryMessage {
            message: message@,
            receiver: Box::new(expression_view(*receiver)),
        },
        Expression::Variable(name) => ExpressionView::Variable(name@),
    }
}

impl View for Expression {
    type V = ExpressionView;

    open spec fn view(&self) -> ExpressionView {
        expression_view(*self)
    }
}

/// A copy of a list of names.
pub fn clone_strings(names: &Vec<String>) -> (copy: Vec<String>)
    ensures
        strings_view(copy@) == strings_view(names@),
{
    let mut copy: Vec<String> = Vec::new();
    let mut i: usize = 0;
    while i < names.len()
        invariant
            i <= names.len(),
            copy@.len() == i,
            forall|k: int| 0 <= k < i ==> copy@[k]@ == names@[k]@,
        decreases names.len() - i,
    {
        copy.push(names[i].clone());
        i = i + 1;
    }
    assert(strings_view(copy@) =~= strings_view(names@));
    copy
}

/// A copy of an expression, with copies of all that it holds.
pub fn clone_expression(expression: &Expression) -> (copy: Expression)
    ensures
        copy@ == expression@,
    decreases expression,
{
    match expression {
        Expression::Assignment { variables, value } => Expression::Assignment {
            variables: clone_strings(variables),
            value: Box::new(clone_expression(value)),
        },
        Expression::BinaryMessage { message, left, right } => Expression::BinaryMessage {
            message: message.clone(),
            left: Box::new(clone_expression(left)),
            right: Box::new(clone_expression(right)),
        },
        Expression::Block { parameters, locals, body } => {
            let mut statements: Vec<Expression> = Vec::new();
            let mut i: usize = 0;
            while i < body.len()
                invariant
                    i <= body.len(),
                    expression == (Expression::Block {
                        parameters: *parameters,
                        locals: *locals,
                        body: *body,
                    }),
                    statements@.len() == i,
                    forall|k: int| 0 <= k < i ==> statements@[k]@ == body@[k]@,
                decreases body.len() - i,
            {
                proof {
                    assert(decreases_to!(expression => expression->Block_body));
                    assert(decreases_to!(body => body@));
                    assert(decreases_to!(body@ => body@[i as int]));
                }
                statements.push(clone_expression(&body[i]));
                i = i + 1;
            }
            assert(expressions_view(statements@) =~= expressions_view(body@));
            let parameters_copy = clone_strings(parameters);
            let locals_copy = clone_strings(locals);
            proof {
                lemma_block_view(*parameters, *locals, *body);
                lemma_block_view(parameters_copy, locals_copy, statements);
            }
            Expression::Block {
                parameters: parameters_copy,
                locals: locals_copy,
                body: statements,
            }
        },
        Expression::KeywordMessage { message, receiver, parameters } => {
            let mut arguments: Vec<Expression> = Vec::new();
            let mut i: usize = 0;
            while i < parameters.len()
                invariant
                    i <= parameters.len(),
                    expression == (Expression::KeywordMessage {
                        message: *message,
                        receiver: *receiver,
                        parameters: *parameters,
                    }),
                    arguments@.len() == i,
                    forall|k: int| 0 <= k < i ==> arguments@[k]@ == parameters@[k]@,
                decreases parameters.len() - i,
            {
                proof {
                    assert(decreases_to!(expression => expression->KeywordMessage_parameters));
                    assert(decreases_to!(parameters => parameters@));
                    assert(decreases_to!(parameters@ => parameters@[i as int]));
                }
                arguments.push(clone_expression(&parameters[i]));
                i = i + 1;
            }
            assert(expressions_view(arguments@) =~= expressions_view(parameters@));
            let message_copy = message.clone();
            let receiver_copy = Box::new(clone_expression(receiver));
            proof {
                lemma_keyword_message_view(*message, *receiver, *parameters);
                lemma_keyword_message_view(message_copy, receiver_copy, arguments);
            }
            Expression::KeywordMessage {
                message: message_copy,
                receiver: receiver_copy,
                parameters: arguments,
            }
        },
        Expression::LiteralBoolean(value) => Expression::LiteralBoolean(*value),
        Expression::LiteralDouble(value) => Expression::LiteralDouble(value.clone()),
        Expression::LiteralInteger(value) => Expression::LiteralInteger(*value),
        Expression::LiteralNil => Expression::LiteralNil,
        Expression::LiteralString(value) => Expression::LiteralString(value.clone()),
        Expression::LiteralSymbol(value) => Expression::LiteralSymbol(value.clone()),
        Expression::Return(value) => Expression::Return(Box::new(clone_expression(value))),
        Expression::UnaryMessage { message, receiver } => Expression::UnaryMessage {
            message: message.clone(),
            receiver: Box::new(clone_expression(receiver)),
        },
        Expression::Variable(name) => Expression::Variable(name.clone()),
    }
}

impl Clone for Expression {
    fn clone(&self) -> (copy: Expression)
        ensures
            copy@ == self@,
    {
        clone_expression(self)
    }
}

/// A copy of a list of expressions.
pub fn clone_expressions(expressions: &Vec<Expression>) -> (copy: Vec<Expression>)
    ensures
        expressions_view(copy@) == expressions_view(expressions@),
{
    let mut copy: Vec<Expression> = Vec::new();
    let mut i: usize = 0;
    while i < expressions.len()
        invariant
            i <= expressions.len(),
            copy@.len() == i,
            forall|k: int| 0 <= k < i ==> copy@[k]@ == expressions@[k]@,
        decreases expressions.len() - i,
    {
        copy.push(clone_expression(&expressions[i]));
        i = i + 1;
    }
    assert(expressions_view(copy@) =~= expressions_view(expressions@));
    copy
}

/// What a list of expressions stands for.
pub open spec fn expressions_view(expressions: Seq<Expression>) -> Seq<ExpressionView> {
    expressions.map_values(|expression: Expression| expression@)
}

/// A block stands for its names and for what its statements stand for.
pub proof fn lemma_block_view(parameters: Vec<String>, locals: Vec<String>, body: Vec<Expression>)
    ensures
        (Expression::Block { parameters, locals, body })@ == (ExpressionView::Block {
            parameters: strings_view(parameters@),
            locals: strings_view(locals@),
            body: expressions_view(body@),
        }),
{
    let whole = Expression::Block { parameters, locals, body };
    assert(whole@->Block_body =~= expressions_view(body@));
}

/// A keyword message stands for its selector and for what its receiver and
/// arguments stand for.
pub proof fn lemma_keyword_message_view(
    message: String,
    receiver: Box<Expression>,
    parameters: Vec<Expression>,
)
    ensures
        (Expression::KeywordMessage { message, receiver, parameters })@
            == (ExpressionView::KeywordMessage {
            message: message@,
            receiver: Box::new(receiver@),
            parameters: expressions_view(parameters@),
        }),
{
    let whole = Expression::KeywordMessage { message, receiver, parameters };
    assert(whole@->KeywordMessage_parameters =~= expressions_view(parameters@));
}

/// A block of code by itself.
#[derive(Debug, PartialEq)]
pub struct Block {
    parameters: Vec<String>,
    locals: Vec<String>,
    body: Vec<Expression>,
}

/// What a block stands for.
pub ghost struct BlockView {
    pub parameters: Seq<Seq<char>>,
    pub locals: Seq<Seq<char>>,
    pub body: Seq<ExpressionView>,
}

impl View for Block {
    type V = BlockView;

    closed spec fn view(&self) -> BlockView {
        BlockView {
            parameters: strings_view(self.parameters@),
            locals: strings_view(self.locals@),
            body: expressions_view(self.body@),
        }
    }
}

impl Clone for Block {
    fn clone(&self) -> (copy: Block)
        ensures
            copy@ == self@,
    {
        Block {
            parameters: clone_strings(&self.parameters),
            locals: clone_strings(&self.locals),
            body: clone_expressions(&self.body),
        }
    }
}

/// A method: one that the machine supplies, or one with statements of its
/// own.
#[derive(Debug, PartialEq)]
pub enum Method {
    Primitive { name: String, parameters: Vec<String> },
    Native { name: String, parameters: Vec<String>, locals: Vec<String>, body: Vec<Expression> },
}

/// What a method stands for.
pub ghost enum MethodView {
    Primitive { name: Seq<char>, parameters: Seq<Seq<char>> },
    Native {
        name: Seq<char>,
        parameters: Seq<Seq<char>>,
        locals: Seq<Seq<char>>,
        body: Seq<ExpressionView>,
    },
}

impl View for Method {
    type V = MethodView;

    open spec fn view(&self) -> MethodView {
        match self {
            Method::Primitive { name, parameters } => MethodView::Primitive {
                name: name@,
                parameters: strings_view(parameters@),
            },
            Method::Native { name, parameters, locals, body } => MethodView::Native {
                name: name@,
                parameters: strings_view(parameters@),
                locals: strings_view(locals@),
                body: expressions_view(body@),
            },
        }
    }
}

impl Clone for Method {
    fn clone(&self) -> (copy: Method)
        ensures
            copy@ == self@,
    {
        match self {
            Method::Primitive { name, parameters } => Method::Primitive {
                name: name.clone(),
                parameters: clone_strings(parameters),
            },
            Method::Native { name, parameters, locals, body } => Method::Native {
                name: name.clone(),
                parameters: clone_strings(parameters),
                locals: clone_strings(locals),
                body: clone_expressions(body),
            },
        }
    }
}

/// The methods of one side of a class, found by their selectors. Each
/// selector occurs once; the methods stand in the order in which their
/// selectors were first inserted, and two tables are equal when they hold
/// equal methods in the same order.
#[derive(Debug, PartialEq)]
pub struct Methods {
    entries: Vec<(String, Method)>,
}

impl View for Methods {
    type V = Map<Seq<char>, MethodView>;

    closed spec fn view(&self) -> Map<Seq<char>, MethodView> {
        Map::new(
            |selector: Seq<char>| self.position_of(selector) is Some,
            |selector: Seq<char>| self.entries@[self.position_of(selector)->0].1@,
        )
    }
}

impl Clone for Methods {
    fn clone(&self) -> (copy: Methods)
        ensures
            copy.selectors() == self.selectors(),
            self.wf() ==> copy.wf() && copy@ == self@,
    {
        let mut entries: Vec<(String, Method)> = Vec::new();
        let mut i: usize = 0;
        while i < self.entries.len()
            invariant
                i <= self.entries.len(),
                entries@.len() == i,
                forall|k: int|
                    0 <= k < i ==> entries@[k].0@ == self.entries@[k].0@ && entries@[k].1@
                        == self.entries@[k].1@,
            decreases self.entries.len() - i,
        {
            entries.push((self.entries[i].0.clone(), self.entries[i].1.clone()));
            i = i + 1;
        }
        let copy = Methods { entries };
        proof {
            assert(copy.selectors() =~= self.selectors());
            if self.wf() {
                assert forall|i: int, j: int|
                    0 <= i < copy.entries@.len() && 0 <= j < copy.entries@.len()
                        && copy.entries@[i].0@ == copy.entries@[j].0@ implies i == j by {
                    assert(self.entries@[i].0@ == self.entries@[j].0@);
                }
                assert forall|key: Seq<char>| #[trigger]
                    copy.position_of(key) == self.position_of(key) by {
                    if self.position_of(key) is Some {
                        let k = self.position_of(key)->0;
                        assert(copy.entries@[k].0@ == key);
                    }
                    if copy.position_of(key) is Some {
                        let k = copy.position_of(key)->0;
                        assert(self.entries@[k].0@ == key);
                    }
                    if self.position_of(key) is Some && copy.position_of(key) is Some {
                        let k = self.position_of(key)->0;
                        let m = copy.position_of(key)->0;
                        assert(self.entries@[k].0@ == self.entries@[m].0@);
                    }
                }
                assert(copy@ =~= self@);
            }
        }
        copy
    }
}

impl Methods {
    /// Where the method with this selector stands, if there is one.
    closed spec fn position_of(&self, selector: Seq<char>) -> Option<int> {
        if exists|i: int| 0 <= i < self.entries@.len() && self.entries@[i].0@ == selector {
            Some(choose|i: int| 0 <= i < self.entries@.len() && self.entries@[i].0@ == selector)
        } else {
            None
        }
    }

    /// No selector occurs twice.
    pub closed spec fn wf(&self) -> bool {
        forall|i: int, j: int|
            0 <= i < self.entries@.len() && 0 <= j < self.entries@.len() && self.entries@[i].0@
                == self.entries@[j].0@ ==> i == j
    }

    /// The selectors in the order in which they were first inserted.
    pub closed spec fn selectors(&self) -> Seq<Seq<char>> {
        self.entries@.map_values(|entry: (String, Method)| entry.0@)
    }

    /// The selectors in their order are those that the table holds, each once.
    pub proof fn lemma_selectors(&self)
        requires
            self.wf(),
        ensures
            self.selectors().no_duplicates(),
            forall|selector: Seq<char>|
                self.selectors().contains(selector) <==> self@.contains_key(selector),
    {
        assert forall|selector: Seq<char>|
            self.selectors().contains(selector) <==> self@.contains_key(selector) by {
            if self.selectors().contains(selector) {
                let i = choose|i: int|
                    0 <= i < self.selectors().len() && self.selectors()[i] == selector;
                assert(self.entries@[i].0@ == selector);
            }
            if self@.contains_key(selector) {
                let i = self.position_of(selector)->0;
                assert(self.selectors()[i] == selector);
            }
        }
    }

    /// A table without methods.
    pub fn new() -> (methods: Methods)
        ensures
            methods.wf(),
            methods@ == Map::<Seq<char>, MethodView>::empty(),
            methods.selectors() == Seq::<Seq<char>>::empty(),
    {
        let methods = Methods { entries: Vec::new() };
        assert(methods@ =~= Map::<Seq<char>, MethodView>::empty());
        assert(methods.selectors() =~= Seq::<Seq<char>>::empty());
        methods
    }

    /// The place of the method with this selector.
    fn find(&self, selector: &String) -> (found: Option<usize>)
        requires
            self.wf(),
        ensures
            match found {
                Some(i) => i < self.entries@.len() && self.entries@[i as int].0@ == selector@
                    && self.position_of(selector@) == Some(i as int),
                None => self.position_of(selector@) is None,
            },
    {
        let mut i: usize = 0;
        while i < self.entries.len()
            invariant
                self.wf(),
                i <= self.entries@.len(),
                forall|k: int| 0 <= k < i ==> self.entries@[k].0@ != selector@,
            decreases self.entries@.len() - i,
        {
            if self.entries[i].0 == *selector {
                proof {
                    let k = self.position_of(selector@)->0;
                    assert(self.entries@[k].0@ == self.entries@[i as int].0@);
                }
                return Some(i);
            }
            i = i + 1;
        }
        None
    }

    /// Puts a method under its selector, in the place of the one that stood
    /// there if there was one.
    pub fn insert(&mut self, selector: String, method: Method)
        requires
            old(self).wf(),
        ensures
            final(self).wf(),
            final(self)@ == old(self)@.insert(selector@, method@),
            final(self).selectors() == if old(self)@.contains_key(selector@) {
                old(self).selectors()
            } else {
                old(self).selectors().push(selector@)
            },
    {
        let ghost before = *self;
        match self.find(&selector) {
            Some(i) => {
                self.entries.set(i, (selector, method));
                proof {
                    assert(self.selectors() =~= before.selectors());
                    assert forall|key: Seq<char>| #[trigger]
                        self.position_of(key) == before.position_of(key) by {
                        if before.position_of(key) is Some {
                            let k = before.position_of(key)->0;
                            assert(self.entries@[k].0@ == key);
                        }
                        if self.position_of(key) is Some {
                            let k = self.position_of(key)->0;
                            assert(before.entries@[k].0@ == key);
                        }
                    }
                    assert(self@ =~= before@.insert(selector@, method@));
                }
            },
            None => {
                self.entries.push((selector, method));
                proof {
                    let last = before.entries@.len() as int;
                    assert(self.selectors() =~= before.selectors().push(selector@));
                    assert(self.entries@[last].0@ == selector@);
                    assert forall|key: Seq<char>| key != selector@ implies #[trigger]
                        self.position_of(key) == before.position_of(key) by {
                        if before.position_of(key) is Some {
                            let k = before.position_of(key)->0;
                            assert(self.entries@[k].0@ == key);
                        }
                        if self.position_of(key) is Some {
                            let k = self.position_of(key)->0;
                            assert(before.entries@[k].0@ == key);
                        }
                    }
                    assert(self@ =~= before@.insert(selector@, method@));
                }
            },
        }
    }

    /// The method with this selector.
    pub fn get(&self, selector: &String) -> (method: Option<&Method>)
        requires
            self.wf(),
        ensures
            match method {
                Some(method) => self@.contains_key(selector@) && method@ == self@[selector@],
                None => !self@.contains_key(selector@),
            },
    {
        match self.find(selector) {
            Some(i) => Some(&self.entries[i].1),
            None => None,
        }
    }

    /// How many methods there are.
    pub fn len(&self) -> (count: usize)
        ensures
            count == self.selectors().len(),
    {
        self.entries.len()
    }

    /// Whether there is no method.
    pub fn is_empty(&self) -> (empty: bool)
        ensures
            empty == (self.selectors().len() == 0),
            empty == (self@ == Map::<Seq<char>, MethodView>::empty()),
    {
        proof {
            if self.entries@.len() > 0 {
                assert(self.entries@[0].0@ == self.entries@[0].0@);
                assert(self.position_of(self.entries@[0].0@) is Some);
                assert(self@.contains_key(self.entries@[0].0@));
            } else {
                assert(self@ =~= Map::<Seq<char>, MethodView>::empty());
            }
        }
        self.entries.len() == 0
    }

    /// The selector of the method in place `index`.
    pub fn selector_at(&self, index: usize) -> (selector: &String)
        requires
            index < self.selectors().len(),
        ensures
            selector@ == self.selectors()[index as int],
    {
        &self.entries[index].0
    }

    /// The method in place `index`.
    pub fn method_at(&self, index: usize) -> (method: &Method)
        requires
            self.wf(),
            index < self.selectors().len(),
        ensures
            self@.contains_key(self.selectors()[index as int]),
            method@ == self@[self.selectors()[index as int]],
    {
        proof {
            let key = self.entries@[index as int].0@;
            assert(self.position_of(key) is Some);
        }
        &self.entries[index].1
    }
}

/// A class: its name, the name of the class above it, and the variables and
/// methods of its instances and of the class itself.
#[derive(Debug, PartialEq)]
pub struct Class {
    pub name: String,
    pub superclass: String,
    pub instance_methods: Methods,
    pub instance_variables: Vec<String>,
    pub class_methods: Methods,
    pub class_variables: Vec<String>,
}

/// What a class stands for. Its methods are found by their selectors.
pub ghost struct ClassView {
    pub name: Seq<char>,
    pub superclass: Seq<char>,
    pub instance_methods: Map<Seq<char>, MethodView>,
    pub instance_variables: Seq<Seq<char>>,
    pub class_methods: Map<Seq<char>, MethodView>,
    pub class_variables: Seq<Seq<char>>,
}

impl Class {
    /// In neither table of methods a selector occurs twice.
    pub open spec fn wf(&self) -> bool {
        self.instance_methods.wf() && self.class_methods.wf()
    }
}

impl Clone for Class {
    fn clone(&self) -> (copy: Class)
        ensures
            self.wf() ==> copy.wf() && copy@ == self@,
    {
        Class {
            name: self.name.clone(),
            superclass: self.superclass.clone(),
            instance_methods: self.instance_methods.clone(),
            instance_variables: clone_strings(&self.instance_variables),
            class_methods: self.class_methods.clone(),
            class_variables: clone_strings(&self.class_variables),
        }
    }
}

impl View for Class {
    type V = ClassView;

    open spec fn view(&self) -> ClassView {
        ClassView {
            name: self.name@,
            superclass: self.superclass@,
            instance_methods: self.instance_methods@,
            instance_variables: strings_view(self.instance_variables@),
            class_methods: self.class_methods@,
            class_variables: strings_view(self.class_variables@),
        }
    }
}

} // verus!
