//! The object model: typed values, parameters, drivers and top-level
//! objects, together with the annotation and global-option records.

use vstd::prelude::*;
use vstd::string::StringExecFns;

use crate::protocol::CompletionParams;
use crate::protocol::Position;
use crate::protocol::Range;
use crate::protocol::pos_le;
use crate::protocol::pos_le_exec;

verus! {

/// A `@define` annotation record.
pub struct DefineAnnotation {
    pub key: String,
    pub value: String,
}

/// The `@version: <major>.<minor>` annotation.
#[derive(Clone, Copy, PartialEq, Eq, Structural, Debug)]
pub struct VersionAnnotation {
    pub major_version: u8,
    pub minor_version: u8,
}

/// A reserved global-option record; currently never populated.
#[derive(Debug)]
pub struct GlobalOption {
    name: String,
}

/// The seven kinds of top-level configuration objects.
#[derive(Clone, Copy, PartialEq, Eq, Structural, Debug)]
pub enum ObjectKind {
    Source,
    Destination,
    Log,
    Filter,
    Parser,
    RewriteRule,
    Template,
}

/// The canonical keyword of each object kind.
pub open spec fn kind_keyword(k: ObjectKind) -> Seq<char> {
    match k {
        ObjectKind::Source => "source"@,
        ObjectKind::Destination => "destination"@,
        ObjectKind::Log => "log"@,
        ObjectKind::Filter => "filter"@,
        ObjectKind::Parser => "parser"@,
        ObjectKind::RewriteRule => "rewrite"@,
        ObjectKind::Template => "template"@,
    }
}

impl ObjectKind {
    /// The keyword that introduces this kind of object.
    pub fn keyword(&self) -> (r: String)
        ensures
            r@ == kind_keyword(*self),
    {
        match self {
            ObjectKind::Source => String::from_str("source"),
            ObjectKind::Destination => String::from_str("destination"),
            ObjectKind::Log => String::from_str("log"),
            ObjectKind::Filter => String::from_str("filter"),
            ObjectKind::Parser => String::from_str("parser"),
            ObjectKind::RewriteRule => String::from_str("rewrite"),
            ObjectKind::Template => String::from_str("template"),
        }
    }
}

/// The typed values of the configuration language.
#[derive(PartialEq, Eq, Debug)]
pub enum ValueTypes {
    Empty,
    YesNo(bool),
    PositiveInteger(usize),
    NonNegativeInteger(usize),
    StringOrNumber(String),
    Path(String),
    String(String),
    StringList(Vec<String>),
    InnerBlock((String, Vec<ValueTypes>)),
    Identifier(String),
}

/// The spec-level content of a `ValueTypes` value. The nested values of an
/// inner block are carried as they are; no component ever constructs or
/// inspects them.
pub enum ValV {
    Empty,
    YesNo(bool),
    PositiveInteger(int),
    NonNegativeInteger(int),
    StringOrNumber(Seq<char>),
    Path(Seq<char>),
    String(Seq<char>),
    StringList(Seq<Seq<char>>),
    InnerBlock(Seq<char>, Seq<ValueTypes>),
    Identifier(Seq<char>),
}

impl View for ValueTypes {
    type V = ValV;

    open spec fn view(&self) -> ValV {
        match self {
            ValueTypes::Empty => ValV::Empty,
            ValueTypes::YesNo(b) => ValV::YesNo(*b),
            ValueTypes::PositiveInteger(n) => ValV::PositiveInteger(*n as int),
            ValueTypes::NonNegativeInteger(n) => ValV::NonNegativeInteger(*n as int),
            ValueTypes::StringOrNumber(s) => ValV::StringOrNumber(s@),
            ValueTypes::Path(s) => ValV::Path(s@),
            ValueTypes::String(s) => ValV::String(s@),
            ValueTypes::StringList(l) => ValV::StringList(l.deep_view()),
            ValueTypes::InnerBlock(t) => ValV::InnerBlock(t.0@, t.1@),
            ValueTypes::Identifier(s) => ValV::Identifier(s@),
        }
    }
}

/// One named option occurrence: a name plus a typed value.
#[derive(PartialEq, Eq, Debug)]
pub struct Parameter {
    pub option_name: String,
    pub value_type: ValueTypes,
}

/// The spec-level content of a `Parameter`.
pub struct ParamV {
    pub name: Seq<char>,
    pub value: ValV,
}

impl View for Parameter {
    type V = ParamV;

    open spec fn view(&self) -> ParamV {
        ParamV { name: self.option_name@, value: self.value_type@ }
    }
}

impl Parameter {
    pub fn new(option_name: String, value_type: ValueTypes) -> (r: Parameter)
        ensures
            r@.name == option_name@,
            r@.value == value_type@,
    {
        Parameter { option_name, value_type }
    }

    pub fn get_option_name(&self) -> (r: &str)
        ensures
            r@ == self@.name,
    {
        self.option_name.as_str()
    }

    pub fn get_value_type(&self) -> (r: &ValueTypes)
        ensures
            r@ == self@.value,
    {
        &self.value_type
    }
}

/// The named option with name `name`, if any; the latest occurrence wins,
/// as repeated options overwrite earlier ones.
pub open spec fn opt_lookup(opts: Seq<ParamV>, name: Seq<char>) -> Option<ParamV>
    decreases opts.len(),
{
    if opts.len() == 0 {
        None
    } else if opts.last().name == name {
        Some(opts.last())
    } else {
        opt_lookup(opts.drop_last(), name)
    }
}

/// No two named options share a name.
pub open spec fn params_unique(opts: Seq<ParamV>) -> bool {
    forall|i: int, j: int| 0 <= i < j < opts.len() ==> opts[i].name != opts[j].name
}

/// Insert a named option, overwriting the first earlier occurrence of the
/// same name: the sequence-backed equivalent of a map insertion.
pub open spec fn param_upsert(opts: Seq<ParamV>, p: ParamV) -> Seq<ParamV>
    decreases opts.len(),
{
    if opts.len() == 0 {
        seq![p]
    } else if opts.first().name == p.name {
        seq![p] + opts.drop_first()
    } else {
        seq![opts.first()] + param_upsert(opts.drop_first(), p)
    }
}

/// When `opts` has `p`'s name first at index `i`, the upsert is an update
/// at `i`.
pub proof fn lemma_param_upsert_found(opts: Seq<ParamV>, p: ParamV, i: int)
    requires
        0 <= i < opts.len(),
        opts[i].name == p.name,
        forall|k: int| 0 <= k < i ==> opts[k].name != p.name,
    ensures
        param_upsert(opts, p) == opts.update(i, p),
    decreases opts.len(),
{
    if i == 0 {
        assert(param_upsert(opts, p) =~= opts.update(0, p));
    } else {
        lemma_param_upsert_found(opts.drop_first(), p, i - 1);
        assert(opts.drop_first().update(i - 1, p) =~= opts.update(i, p).drop_first());
        assert(param_upsert(opts, p) =~= opts.update(i, p));
    }
}

/// When no option has `p`'s name, the upsert appends `p`.
pub proof fn lemma_param_upsert_absent(opts: Seq<ParamV>, p: ParamV)
    requires
        forall|k: int| 0 <= k < opts.len() ==> opts[k].name != p.name,
    ensures
        param_upsert(opts, p) == opts.push(p),
    decreases opts.len(),
{
    if opts.len() == 0 {
        assert(param_upsert(opts, p) =~= opts.push(p));
    } else {
        lemma_param_upsert_absent(opts.drop_first(), p);
        assert(param_upsert(opts, p) =~= opts.push(p));
    }
}

/// One driver call inside an object body: a name, positional values, and
/// named options.
#[derive(PartialEq, Eq, Debug)]
pub struct Driver {
    pub name: String,
    pub required_options: Vec<ValueTypes>,
    pub options: Vec<Parameter>,
}

/// The spec-level content of a `Driver`.
pub struct DriverV {
    pub name: Seq<char>,
    pub positional: Seq<ValV>,
    pub options: Seq<ParamV>,
}

impl View for Driver {
    type V = DriverV;

    open spec fn view(&self) -> DriverV {
        DriverV {
            name: self.name@,
            positional: self.required_options@.map_values(|v: ValueTypes| v@),
            options: self.options@.map_values(|p: Parameter| p@),
        }
    }
}

impl Driver {
    pub fn new(name: String, required_options: Vec<ValueTypes>, options: Vec<Parameter>) -> (r:
        Driver)
        ensures
            r@.name == name@,
            r@.positional == required_options@.map_values(|v: ValueTypes| v@),
            r@.options == options@.map_values(|p: Parameter| p@),
    {
        Driver { name, required_options, options }
    }

    pub fn get_name(&self) -> (r: &str)
        ensures
            r@ == self@.name,
    {
        self.name.as_str()
    }

    pub fn get_options(&self) -> (r: &Vec<Parameter>)
        ensures
            r@.map_values(|p: Parameter| p@) == self@.options,
    {
        &self.options
    }

    pub fn get_required_options(&self) -> (r: &Vec<ValueTypes>)
        ensures
            r@.map_values(|v: ValueTypes| v@) == self@.positional,
    {
        &self.required_options
    }

    /// The named option called `name`, if the driver has one.
    pub fn get_option(&self, name: &str) -> (r: Option<&Parameter>)
        ensures
            match r {
                Some(p) => opt_lookup(self@.options, name@) == Some(p@),
                None => opt_lookup(self@.options, name@) is None,
            },
    {
        let n = self.options.len();
        let mut i: usize = n;
        proof {
            assert(self@.options.subrange(0, n as int) =~= self@.options);
        }
        while i > 0
            invariant
                n == self.options.len(),
                0 <= i <= n,
                opt_lookup(self@.options, name@) == opt_lookup(
                    self@.options.subrange(0, i as int),
                    name@,
                ),
            decreases i,
        {
            i -= 1;
            let p = &self.options[i];
            if crate::text::str_eq(p.option_name.as_str(), name) {
                proof {
                    assert(self@.options.subrange(0, i + 1).last() == self@.options[i as int]);
                }
                return Some(p);
            }
            proof {
                assert(self@.options.subrange(0, i + 1).drop_last() =~= self@.options.subrange(
                    0,
                    i as int,
                ));
                assert(self@.options.subrange(0, i + 1).last() == self@.options[i as int]);
            }
        }
        proof {
            assert(self@.options.subrange(0, 0) =~= Seq::<ParamV>::empty());
        }
        None
    }
}

/// One top-level declaration: kind, optional identifier, drivers, and the
/// source location it was parsed from.
#[derive(PartialEq, Eq, Debug)]
pub struct Object {
    id: String,
    kind: ObjectKind,
    drivers: Vec<Driver>,
    location: Option<(String, Range)>,
}

/// The spec-level content of an `Object`; the location pairs a document
/// identity with the declaration's line range.
pub struct ObjectV {
    pub id: Seq<char>,
    pub kind: ObjectKind,
    pub drivers: Seq<DriverV>,
    pub location: Option<(Seq<char>, Range)>,
}

impl View for Object {
    type V = ObjectV;

    closed spec fn view(&self) -> ObjectV {
        ObjectV {
            id: self.id@,
            kind: self.kind,
            drivers: self.drivers@.map_values(|d: Driver| d@),
            location: match self.location {
                Some((u, range)) => Some((u@, range)),
                None => None,
            },
        }
    }
}

/// Does the object's recorded location contain the given cursor position?
pub open spec fn obj_contains(o: ObjectV, uri: Seq<char>, pos: Position) -> bool {
    match o.location {
        Some(loc) => loc.0 == uri && pos_le(loc.1.start, pos) && pos_le(pos, loc.1.end),
        None => false,
    }
}

impl Object {
    pub fn new(id: String, kind: ObjectKind, drivers: Vec<Driver>, location: Option<(
        String,
        Range,
    )>) -> (r: Object)
        ensures
            r@.id == id@,
            r@.kind == kind,
            r@.drivers == drivers@.map_values(|d: Driver| d@),
            r@.location == match location {
                Some(loc) => Some((loc.0@, loc.1)),
                None => None::<(Seq<char>, Range)>,
            },
    {
        Object { id, kind, drivers, location }
    }

    pub fn new_without_location(id: String, kind: ObjectKind, options: Vec<Driver>) -> (r: Object)
        ensures
            r@.id == id@,
            r@.kind == kind,
            r@.drivers == options@.map_values(|d: Driver| d@),
            r@.location is None,
    {
        Object::new(id, kind, options, None)
    }

    pub fn get_id(&self) -> (r: &str)
        ensures
            r@ == self@.id,
    {
        self.id.as_str()
    }

    pub fn get_drivers(&self) -> (r: &Vec<Driver>)
        ensures
            r@.map_values(|d: Driver| d@) == self@.drivers,
    {
        &self.drivers
    }

    pub fn get_kind(&self) -> (r: &ObjectKind)
        ensures
            *r == self@.kind,
    {
        &self.kind
    }

    pub fn get_location(&self) -> (r: &Option<(String, Range)>)
        ensures
            self@.location == match r {
                Some(loc) => Some((loc.0@, loc.1)),
                None => None::<(Seq<char>, Range)>,
            },
    {
        &self.location
    }

    pub fn get_start_and_end_position(&self) -> (r: Option<&Range>)
        ensures
            match r {
                Some(range) => self@.location matches Some(loc) && loc.1 == *range,
                None => self@.location is None,
            },
    {
        if let Some(loc) = &self.location {
            return Some(&loc.1);
        }
        None
    }

    /// Is the cursor position inside this object's recorded location?
    /// An object without a location contains no position.
    pub fn is_inside_document_position(&self, params: &CompletionParams) -> (r: bool)
        ensures
            r == obj_contains(self@, params@.uri, params@.position),
    {
        match &self.location {
            Some(loc) => {
                crate::text::str_eq(loc.0.as_str(), params.uri.as_str()) && pos_le_exec(
                    &loc.1.start,
                    &params.position,
                ) && pos_le_exec(&params.position, &loc.1.end)
            },
            None => false,
        }
    }

    pub fn set_location(&mut self, uri: &str, range: &Range)
        ensures
            final(self)@.id == old(self)@.id,
            final(self)@.kind == old(self)@.kind,
            final(self)@.drivers == old(self)@.drivers,
            final(self)@.location == Some((uri@, *range)),
    {
        self.location = Some((String::from_str(uri), *range));
    }
}

} // verus!
