//! The grammar database: a read-only schema describing, per object kind
//! and driver name, the valid options, their type hints, and nested option
//! blocks. The session layer builds it once, from the bundled schema
//! resource, before any completion query; everything here only reads it.

use vstd::prelude::*;
use vstd::string::StrSliceExecFns;
use vstd::string::StringExecFns;

use crate::text::CharClass;
use crate::text::run_len;
use crate::text::scan;
use crate::text::str_eq;
use crate::text::substr;

verus! {

/// One option entry: a `/`-separated alias list (the first alias is the
/// canonical name) and the declared type hints.
pub struct OptionSchema {
    pub names: String,
    pub type_hints: Vec<String>,
}

/// The spec-level content of an `OptionSchema`.
pub struct OptionSchemaV {
    pub names: Seq<char>,
    pub hints: Seq<Seq<char>>,
}

impl View for OptionSchema {
    type V = OptionSchemaV;

    open spec fn view(&self) -> OptionSchemaV {
        OptionSchemaV { names: self.names@, hints: self.type_hints.deep_view() }
    }
}

/// One nested option block of a driver.
pub struct BlockSchema {
    pub name: String,
    pub options: Vec<OptionSchema>,
}

/// The spec-level content of a `BlockSchema`.
pub struct BlockSchemaV {
    pub name: Seq<char>,
    pub options: Seq<OptionSchemaV>,
}

impl View for BlockSchema {
    type V = BlockSchemaV;

    open spec fn view(&self) -> BlockSchemaV {
        BlockSchemaV {
            name: self.name@,
            options: self.options@.map_values(|o: OptionSchema| o@),
        }
    }
}

/// One driver entry of an object kind.
pub struct DriverSchema {
    pub name: String,
    pub options: Vec<OptionSchema>,
    pub blocks: Vec<BlockSchema>,
}

/// The spec-level content of a `DriverSchema`.
pub struct DriverSchemaV {
    pub name: Seq<char>,
    pub options: Seq<OptionSchemaV>,
    pub blocks: Seq<BlockSchemaV>,
}

impl View for DriverSchema {
    type V = DriverSchemaV;

    open spec fn view(&self) -> DriverSchemaV {
        DriverSchemaV {
            name: self.name@,
            options: self.options@.map_values(|o: OptionSchema| o@),
            blocks: self.blocks@.map_values(|b: BlockSchema| b@),
        }
    }
}

/// The drivers known for one object kind.
pub struct KindSchema {
    pub name: String,
    pub drivers: Vec<DriverSchema>,
}

/// The spec-level content of a `KindSchema`.
pub struct KindSchemaV {
    pub name: Seq<char>,
    pub drivers: Seq<DriverSchemaV>,
}

impl View for KindSchema {
    type V = KindSchemaV;

    open spec fn view(&self) -> KindSchemaV {
        KindSchemaV {
            name: self.name@,
            drivers: self.drivers@.map_values(|d: DriverSchema| d@),
        }
    }
}

/// The whole grammar database, read-only once built.
pub struct GrammarDatabase {
    pub kinds: Vec<KindSchema>,
}

/// The spec-level content of the grammar database.
pub struct GrammarDatabaseV {
    pub kinds: Seq<KindSchemaV>,
}

impl View for GrammarDatabase {
    type V = GrammarDatabaseV;

    open spec fn view(&self) -> GrammarDatabaseV {
        GrammarDatabaseV { kinds: self.kinds@.map_values(|k: KindSchema| k@) }
    }
}

/// The fixed root-level keyword set.
pub open spec fn root_keywords() -> Seq<Seq<char>> {
    seq![
        "source"@,
        "filter"@,
        "parser"@,
        "rewrite"@,
        "destination"@,
        "log"@,
        "junction"@,
    ]
}

/// The keywords valid at the top level of a configuration, in their fixed
/// order.
pub fn grammar_get_root_level_keywords() -> (r: Vec<String>)
    ensures
        r.deep_view() == root_keywords(),
{
    let mut r: Vec<String> = Vec::new();
    r.push(String::from_str("source"));
    r.push(String::from_str("filter"));
    r.push(String::from_str("parser"));
    r.push(String::from_str("rewrite"));
    r.push(String::from_str("destination"));
    r.push(String::from_str("log"));
    r.push(String::from_str("junction"));
    proof {
        assert(r.deep_view() =~= root_keywords());
    }
    r
}

/// The first schema entry named `name`, per lookup level.
pub open spec fn kind_lookup(ks: Seq<KindSchemaV>, name: Seq<char>) -> Option<KindSchemaV>
    decreases ks.len(),
{
    if ks.len() == 0 {
        None
    } else if ks.first().name == name {
        Some(ks.first())
    } else {
        kind_lookup(ks.drop_first(), name)
    }
}

pub open spec fn driver_lookup(ds: Seq<DriverSchemaV>, name: Seq<char>) -> Option<DriverSchemaV>
    decreases ds.len(),
{
    if ds.len() == 0 {
        None
    } else if ds.first().name == name {
        Some(ds.first())
    } else {
        driver_lookup(ds.drop_first(), name)
    }
}

pub open spec fn block_lookup(bs: Seq<BlockSchemaV>, name: Seq<char>) -> Option<BlockSchemaV>
    decreases bs.len(),
{
    if bs.len() == 0 {
        None
    } else if bs.first().name == name {
        Some(bs.first())
    } else {
        block_lookup(bs.drop_first(), name)
    }
}

/// Find the schema of an object kind by name.
fn find_kind<'a>(db: &'a GrammarDatabase, name: &str) -> (r: Option<&'a KindSchema>)
    ensures
        match r {
            Some(k) => kind_lookup(db@.kinds, name@) == Some(k@),
            None => kind_lookup(db@.kinds, name@) is None,
        },
{
    let n = db.kinds.len();
    let mut i: usize = 0;
    proof {
        assert(db@.kinds.subrange(0, n as int) =~= db@.kinds);
    }
    while i < n
        invariant
            n == db.kinds.len(),
            0 <= i <= n,
            kind_lookup(db@.kinds, name@) == kind_lookup(
                db@.kinds.subrange(i as int, n as int),
                name@,
            ),
        decreases n - i,
    {
        let k = &db.kinds[i];
        proof {
            assert(db@.kinds.subrange(i as int, n as int).first() == db@.kinds[i as int]);
            assert(db@.kinds.subrange(i as int, n as int).drop_first() =~= db@.kinds.subrange(
                i + 1,
                n as int,
            ));
        }
        if str_eq(k.name.as_str(), name) {
            return Some(k);
        }
        i += 1;
    }
    proof {
        assert(db@.kinds.subrange(n as int, n as int) =~= Seq::<KindSchemaV>::empty());
    }
    None
}

/// Find a driver's schema by name within a kind.
fn find_driver<'a>(kind: &'a KindSchema, name: &str) -> (r: Option<&'a DriverSchema>)
    ensures
        match r {
            Some(d) => driver_lookup(kind@.drivers, name@) == Some(d@),
            None => driver_lookup(kind@.drivers, name@) is None,
        },
{
    let n = kind.drivers.len();
    let mut i: usize = 0;
    proof {
        assert(kind@.drivers.subrange(0, n as int) =~= kind@.drivers);
    }
    while i < n
        invariant
            n == kind.drivers.len(),
            0 <= i <= n,
            driver_lookup(kind@.drivers, name@) == driver_lookup(
                kind@.drivers.subrange(i as int, n as int),
                name@,
            ),
        decreases n - i,
    {
        let d = &kind.drivers[i];
        proof {
            assert(kind@.drivers.subrange(i as int, n as int).first() == kind@.drivers[i as int]);
            assert(kind@.drivers.subrange(i as int, n as int).drop_first()
                =~= kind@.drivers.subrange(i + 1, n as int));
        }
        if str_eq(d.name.as_str(), name) {
            return Some(d);
        }
        i += 1;
    }
    proof {
        assert(kind@.drivers.subrange(n as int, n as int) =~= Seq::<DriverSchemaV>::empty());
    }
    None
}

/// Find a nested block's schema by name within a driver.
fn find_block<'a>(driver: &'a DriverSchema, name: &str) -> (r: Option<&'a BlockSchema>)
    ensures
        match r {
            Some(b) => block_lookup(driver@.blocks, name@) == Some(b@),
            None => block_lookup(driver@.blocks, name@) is None,
        },
{
    let n = driver.blocks.len();
    let mut i: usize = 0;
    proof {
        assert(driver@.blocks.subrange(0, n as int) =~= driver@.blocks);
    }
    while i < n
        invariant
            n == driver.blocks.len(),
            0 <= i <= n,
            block_lookup(driver@.blocks, name@) == block_lookup(
                driver@.blocks.subrange(i as int, n as int),
                name@,
            ),
        decreases n - i,
    {
        let b = &driver.blocks[i];
        proof {
            assert(driver@.blocks.subrange(i as int, n as int).first() == driver@.blocks[i as int]);
            assert(driver@.blocks.subrange(i as int, n as int).drop_first()
                =~= driver@.blocks.subrange(i + 1, n as int));
        }
        if str_eq(b.name.as_str(), name) {
            return Some(b);
        }
        i += 1;
    }
    proof {
        assert(driver@.blocks.subrange(n as int, n as int) =~= Seq::<BlockSchemaV>::empty());
    }
    None
}

/// The driver names an object kind offers, in schema order; only the
/// kinds `destination`, `source` and `parser` are consulted.
pub fn get_possible_object_names(db: &GrammarDatabase, object_kind: &str) -> (r: Option<
    Vec<String>,
>)
    ensures
        ({
            let consulted = object_kind@ == "destination"@ || object_kind@ == "source"@
                || object_kind@ == "parser"@;
            match r {
                Some(names) => consulted && (kind_lookup(db@.kinds, object_kind@) matches Some(k)
                    && names.deep_view() == k.drivers.map_values(|d: DriverSchemaV| d.name)),
                None => !consulted || kind_lookup(db@.kinds, object_kind@) is None,
            }
        }),
{
    let consulted = str_eq(object_kind, "destination") || str_eq(object_kind, "source") || str_eq(
        object_kind,
        "parser",
    );
    if !consulted {
        return None;
    }
    let kind = match find_kind(db, object_kind) {
        Some(k) => k,
        None => {
            return None;
        },
    };
    let n = kind.drivers.len();
    let mut names: Vec<String> = Vec::new();
    let mut i: usize = 0;
    proof {
        assert(names.deep_view() =~= kind@.drivers.map_values(|d: DriverSchemaV| d.name).subrange(
            0,
            0,
        ));
    }
    while i < n
        invariant
            n == kind.drivers.len(),
            0 <= i <= n,
            kind@.drivers.len() == n,
            names.deep_view() == kind@.drivers.map_values(|d: DriverSchemaV| d.name).subrange(
                0,
                i as int,
            ),
        decreases n - i,
    {
        let ghost before = names.deep_view();
        names.push(kind.drivers[i].name.clone());
        proof {
            assert(names.deep_view() =~= before.push(kind@.drivers[i as int].name));
            assert(kind@.drivers.map_values(|d: DriverSchemaV| d.name).subrange(0, i + 1)
                =~= before.push(kind@.drivers[i as int].name));
        }
        i += 1;
    }
    proof {
        assert(kind@.drivers.map_values(|d: DriverSchemaV| d.name).subrange(0, n as int)
            =~= kind@.drivers.map_values(|d: DriverSchemaV| d.name));
    }
    Some(names)
}

/// Strip one pair of surrounding double quotes; the explicitly empty
/// quoted string and any text not wrapped in quotes stay as they are.
pub open spec fn strip_quotes(t: Seq<char>) -> Seq<char> {
    if t.len() > 2 && t[0] == '"' && t[t.len() - 1] == '"' {
        t.subrange(1, t.len() - 1)
    } else {
        t
    }
}

/// Strip surrounding quotes from a schema token, as `strip_quotes`
/// describes it.
pub fn remove_surronding_quotes<'a>(inp: &'a str) -> (r: &'a str)
    ensures
        r@ == strip_quotes(inp@),
{
    let n = inp.unicode_len();
    if n > 2 && inp.get_char(0) == '"' && inp.get_char(n - 1) == '"' {
        inp.substring_char(1, n - 1)
    } else {
        inp
    }
}

/// The canonical alias of a `/`-separated alias list: the text before the
/// first slash.
pub open spec fn first_alias(t: Seq<char>) -> Seq<char> {
    t.take(run_len(t, 0, CharClass::NotSlash))
}

/// The completion label of an option entry: its canonical alias with
/// surrounding quotes stripped.
pub open spec fn option_label(o: OptionSchemaV) -> Seq<char> {
    strip_quotes(first_alias(o.names))
}

/// The completion detail of an option entry: its first type hint,
/// quote-stripped, in parentheses.
pub open spec fn option_detail(o: OptionSchemaV) -> Seq<char> {
    seq!['('] + strip_quotes(o.hints[0]) + seq![')']
}

/// Insert a labeled detail, overwriting the first earlier entry with the
/// same label.
pub open spec fn pair_upsert(acc: Seq<(Seq<char>, Seq<char>)>, p: (Seq<char>, Seq<char>)) -> Seq<
    (Seq<char>, Seq<char>),
>
    decreases acc.len(),
{
    if acc.len() == 0 {
        seq![p]
    } else if acc.first().0 == p.0 {
        seq![p] + acc.drop_first()
    } else {
        seq![acc.first()] + pair_upsert(acc.drop_first(), p)
    }
}

/// The labeled type details of a sequence of option entries: entries
/// without a type hint are skipped, repeated labels keep the last entry.
pub open spec fn options_table(opts: Seq<OptionSchemaV>, acc: Seq<(Seq<char>, Seq<char>)>) -> Seq<
    (Seq<char>, Seq<char>),
>
    decreases opts.len(),
{
    if opts.len() == 0 {
        acc
    } else {
        let o = opts.first();
        let acc1: Seq<(Seq<char>, Seq<char>)> = if o.hints.len() > 0 {
            pair_upsert(acc, (option_label(o), option_detail(o)))
        } else {
            acc
        };
        options_table(opts.drop_first(), acc1)
    }
}

/// The option table that a completion query consults: the options of the
/// named driver under the named object kind, or of the named nested block
/// inside that driver. An unknown kind, driver or block yields nothing.
pub open spec fn all_options_of(
    db: GrammarDatabaseV,
    kind: Seq<char>,
    driver: Seq<char>,
    block: Option<Seq<char>>,
) -> Option<Seq<(Seq<char>, Seq<char>)>> {
    match kind_lookup(db.kinds, kind) {
        None => None,
        Some(k) => match driver_lookup(k.drivers, driver) {
            None => None,
            Some(d) => match block {
                None => Some(options_table(d.options, Seq::empty())),
                Some(bn) => match block_lookup(d.blocks, bn) {
                    None => None,
                    Some(b) => Some(options_table(b.options, Seq::empty())),
                },
            },
        },
    }
}

/// Insert a labeled detail into the table, as `pair_upsert` describes it.
fn upsert_pair(acc: &mut Vec<(String, String)>, label: String, detail: String)
    ensures
        final(acc)@.map_values(|p: (String, String)| (p.0@, p.1@)) == pair_upsert(
            old(acc)@.map_values(|p: (String, String)| (p.0@, p.1@)),
            (label@, detail@),
        ),
{
    let ghost oldv = acc@.map_values(|p: (String, String)| (p.0@, p.1@));
    let ghost pv = (label@, detail@);
    let n = acc.len();
    let mut i: usize = 0;
    while i < n
        invariant
            n == acc.len(),
            0 <= i <= n,
            oldv == acc@.map_values(|p: (String, String)| (p.0@, p.1@)),
            oldv == old(acc)@.map_values(|p: (String, String)| (p.0@, p.1@)),
            pv == (label@, detail@),
            forall|k: int| 0 <= k < i ==> oldv[k].0 != pv.0,
        decreases n - i,
    {
        if str_eq(acc[i].0.as_str(), label.as_str()) {
            proof {
                lemma_pair_upsert_found(oldv, pv, i as int);
            }
            acc.set(i, (label, detail));
            proof {
                assert(acc@.map_values(|p: (String, String)| (p.0@, p.1@)) =~= oldv.update(
                    i as int,
                    pv,
                ));
            }
            return ;
        }
        i += 1;
    }
    acc.push((label, detail));
    proof {
        lemma_pair_upsert_absent(oldv, pv);
        assert(acc@.map_values(|p: (String, String)| (p.0@, p.1@)) =~= oldv.push(pv));
    }
}

proof fn lemma_pair_upsert_found(acc: Seq<(Seq<char>, Seq<char>)>, p: (Seq<char>, Seq<char>), i: int)
    requires
        0 <= i < acc.len(),
        acc[i].0 == p.0,
        forall|k: int| 0 <= k < i ==> acc[k].0 != p.0,
    ensures
        pair_upsert(acc, p) == acc.update(i, p),
    decreases acc.len(),
{
    if i == 0 {
        assert(pair_upsert(acc, p) =~= acc.update(0, p));
    } else {
        lemma_pair_upsert_found(acc.drop_first(), p, i - 1);
        assert(acc.drop_first().update(i - 1, p) =~= acc.update(i, p).drop_first());
        assert(pair_upsert(acc, p) =~= acc.update(i, p));
    }
}

proof fn lemma_pair_upsert_absent(acc: Seq<(Seq<char>, Seq<char>)>, p: (Seq<char>, Seq<char>))
    requires
        forall|k: int| 0 <= k < acc.len() ==> acc[k].0 != p.0,
    ensures
        pair_upsert(acc, p) == acc.push(p),
    decreases acc.len(),
{
    if acc.len() == 0 {
        assert(pair_upsert(acc, p) =~= acc.push(p));
    } else {
        lemma_pair_upsert_absent(acc.drop_first(), p);
        assert(pair_upsert(acc, p) =~= acc.push(p));
    }
}

/// Build the option table of a sequence of option entries.
fn build_options_table(opts: &Vec<OptionSchema>) -> (r: Vec<(String, String)>)
    ensures
        r@.map_values(|p: (String, String)| (p.0@, p.1@)) == options_table(
            opts@.map_values(|o: OptionSchema| o@),
            Seq::empty(),
        ),
{
    let n = opts.len();
    let mut acc: Vec<(String, String)> = Vec::new();
    let mut i: usize = 0;
    let ghost optsv = opts@.map_values(|o: OptionSchema| o@);
    proof {
        assert(acc@.map_values(|p: (String, String)| (p.0@, p.1@)) =~= Seq::<
            (Seq<char>, Seq<char>),
        >::empty());
        assert(optsv.subrange(0, n as int) =~= optsv);
    }
    while i < n
        invariant
            n == opts.len(),
            0 <= i <= n,
            optsv == opts@.map_values(|o: OptionSchema| o@),
            optsv.len() == n,
            options_table(optsv, Seq::empty()) == options_table(
                optsv.subrange(i as int, n as int),
                acc@.map_values(|p: (String, String)| (p.0@, p.1@)),
            ),
        decreases n - i,
    {
        let ghost accv = acc@.map_values(|p: (String, String)| (p.0@, p.1@));
        let o = &opts[i];
        proof {
            assert(optsv.subrange(i as int, n as int).first() == optsv[i as int]);
            assert(optsv.subrange(i as int, n as int).drop_first() =~= optsv.subrange(
                i + 1,
                n as int,
            ));
            assert(o@ == optsv[i as int]);
        }
        if o.type_hints.len() > 0 {
            let names = o.names.as_str();
            let slash = scan(names, 0, CharClass::NotSlash);
            let canonical = substr(names, 0, slash);
            let label = String::from_str(remove_surronding_quotes(canonical.as_str()));
            let hint = remove_surronding_quotes(o.type_hints[0].as_str());
            let mut detail = String::from_str("(");
            detail.append(hint);
            detail.append(")");
            proof {
                reveal_strlit("(");
                reveal_strlit(")");
                assert("("@ =~= seq!['(']);
                assert(")"@ =~= seq![')']);
                assert(canonical@ =~= first_alias(o@.names));
                assert(o@.hints[0] == o.type_hints@[0]@);
                assert(label@ == option_label(o@));
                assert(detail@ =~= option_detail(o@));
            }
            upsert_pair(&mut acc, label, detail);
        }
        i += 1;
    }
    proof {
        assert(optsv.subrange(n as int, n as int) =~= Seq::<OptionSchemaV>::empty());
    }
    acc
}

/// Look up every option valid for `driver` under `object_type` — or for
/// the nested block `inner_block` inside that driver — as
/// `all_options_of` describes it. Each entry pairs the canonical option
/// name with its parenthesized type hint.
pub fn grammar_get_all_options(
    db: &GrammarDatabase,
    object_type: &str,
    driver: &str,
    inner_block: &Option<String>,
) -> (r: Option<Vec<(String, String)>>)
    ensures
        ({
            let block = match inner_block {
                Some(b) => Some(b@),
                None => None::<Seq<char>>,
            };
            match r {
                Some(table) => all_options_of(db@, object_type@, driver@, block) == Some(
                    table@.map_values(|p: (String, String)| (p.0@, p.1@)),
                ),
                None => all_options_of(db@, object_type@, driver@, block) is None,
            }
        }),
{
    let kind = match find_kind(db, object_type) {
        Some(k) => k,
        None => {
            return None;
        },
    };
    let drv = match find_driver(kind, driver) {
        Some(d) => d,
        None => {
            return None;
        },
    };
    match inner_block {
        None => Some(build_options_table(&drv.options)),
        Some(block_name) => {
            match find_block(drv, block_name.as_str()) {
                Some(b) => Some(build_options_table(&b.options)),
                None => None,
            }
        },
    }
}

} // verus!
