//! The symbols of object files, and which of them a set of files leaves undefined.

use vstd::hash_map::StringHashMap;
use vstd::hash_set::StringHashSet;
use vstd::prelude::*;

verus! {

/// What a symbol stands for.
#[derive(Clone, Copy, Debug, PartialEq, Eq, Structural)]
pub enum SymbolKind {
    Unknown,
    Text,
    Data,
    Section,
    File,
    Label,
    Tls,
}

/// One entry of a program's symbol table.
#[derive(Debug, PartialEq, Eq)]
pub struct SymbolEntry {
    /// `None` where the file holds no readable name for the symbol.
    pub name: Option<String>,
    pub address: u64,
    pub kind: SymbolKind,
    pub weak: bool,
}

/// The value of a [`SymbolEntry`].
pub struct Symbol {
    pub name: Option<Seq<char>>,
    pub address: u64,
    pub kind: SymbolKind,
    pub weak: bool,
}

impl View for SymbolEntry {
    type V = Symbol;

    open spec fn view(&self) -> Symbol {
        Symbol {
            name: match self.name {
                Some(name) => Some(name@),
                None => None,
            },
            address: self.address,
            kind: self.kind,
            weak: self.weak,
        }
    }
}

/// The values of a symbol table's entries.
pub open spec fn symbols(entries: Seq<SymbolEntry>) -> Seq<Symbol> {
    Seq::new(entries.len(), |i: int| entries[i]@)
}

/// One entry of a program's symbol table, without its address.
#[derive(Debug, PartialEq, Eq)]
pub struct UnplacedEntry {
    /// `None` where the file holds no readable name for the symbol.
    pub name: Option<String>,
    pub kind: SymbolKind,
    pub weak: bool,
}

/// The value of an [`UnplacedEntry`].
pub struct Unplaced {
    pub name: Option<Seq<char>>,
    pub kind: SymbolKind,
    pub weak: bool,
}

impl View for UnplacedEntry {
    type V = Unplaced;

    open spec fn view(&self) -> Unplaced {
        Unplaced {
            name: match self.name {
                Some(name) => Some(name@),
                None => None,
            },
            kind: self.kind,
            weak: self.weak,
        }
    }
}

/// The values of a symbol table's entries, without their addresses.
pub open spec fn unplaced(entries: Seq<UnplacedEntry>) -> Seq<Unplaced> {
    Seq::new(entries.len(), |i: int| entries[i]@)
}

/// What one entry of an object file's symbol table says to other files.
#[derive(Debug, PartialEq, Eq)]
pub struct LinkEntry {
    /// The name, or why it cannot be read.
    pub name: Result<String, object::read::Error>,
    pub undefined: bool,
    pub global: bool,
}

/// The value of a [`LinkEntry`].
pub struct Link {
    pub name: Result<Seq<char>, object::read::Error>,
    pub undefined: bool,
    pub global: bool,
}

impl View for LinkEntry {
    type V = Link;

    open spec fn view(&self) -> Link {
        Link {
            name: match self.name {
                Ok(name) => Ok(name@),
                Err(error) => Err(error),
            },
            undefined: self.undefined,
            global: self.global,
        }
    }
}

/// The values of what a symbol table says to other files.
pub open spec fn links(entries: Seq<LinkEntry>) -> Seq<Link> {
    Seq::new(entries.len(), |i: int| entries[i]@)
}

impl Link {
    /// Whether this is an undefined symbol of the given name.
    pub open spec fn asks_for(self, name: Seq<char>) -> bool {
        self.undefined && self.name is Ok && self.name->Ok_0 == name
    }

    /// Whether this is a global definition of the given name.
    pub open spec fn provides(self, name: Seq<char>) -> bool {
        !self.undefined && self.global && self.name is Ok && self.name->Ok_0 == name
    }
}

/// The values of a list of names.
pub open spec fn names(list: Seq<String>) -> Seq<Seq<char>> {
    Seq::new(list.len(), |i: int| list[i]@)
}

/// The names of the undefined symbols of a table, in order.
pub open spec fn undefined_names(table: Seq<Link>) -> Seq<Seq<char>>
    decreases table.len(),
{
    if table.len() == 0 {
        Seq::empty()
    } else {
        let rest = undefined_names(table.drop_last());
        if table.last().undefined && table.last().name is Ok {
            rest.push(table.last().name->Ok_0)
        } else {
            rest
        }
    }
}

/// Whether a table defines a global symbol of this name.
pub open spec fn defines(table: Seq<Link>, name: Seq<char>) -> bool {
    exists|i: int|
        0 <= i < table.len() && (#[trigger] table[i]).provides(name)
}

/// A list without the names that it already holds further to the front.
pub open spec fn first_occurrences(list: Seq<Seq<char>>) -> Seq<Seq<char>>
    decreases list.len(),
{
    if list.len() == 0 {
        Seq::empty()
    } else {
        let rest = first_occurrences(list.drop_last());
        if list.drop_last().contains(list.last()) {
            rest
        } else {
            rest.push(list.last())
        }
    }
}

/// A list without the names that a table defines.
pub open spec fn not_defined(list: Seq<Seq<char>>, table: Seq<Link>) -> Seq<Seq<char>>
    decreases list.len(),
{
    if list.len() == 0 {
        Seq::empty()
    } else {
        let rest = not_defined(list.drop_last(), table);
        if defines(table, list.last()) {
            rest
        } else {
            rest.push(list.last())
        }
    }
}

/// The names that a table has an undefined symbol and no global definition for, each
/// once, in the order in which they first come up.
pub open spec fn unresolved(table: Seq<Link>) -> Seq<Seq<char>> {
    not_defined(first_occurrences(undefined_names(table)), table)
}

/// The symbol that a name stands for in a table: the last one of that name.
pub open spec fn lookup(table: Seq<Symbol>, name: Seq<char>) -> Option<Symbol>
    decreases table.len(),
{
    if table.len() == 0 {
        None
    } else if table.last().name == Some(name) {
        Some(table.last())
    } else {
        lookup(table.drop_last(), name)
    }
}

/// Lists the names that the symbols leave undefined: those of undefined symbols for
/// which there is no global definition. Each comes once, in the order in which they
/// first come up.
pub fn unresolved_names(entries: &Vec<LinkEntry>) -> (r: Vec<String>)
    ensures
        names(r@) == unresolved(links(entries@)),
{
    let ghost table = links(entries@);
    let mut undefined: Vec<String> = Vec::new();
    let mut seen = StringHashSet::new();
    let mut defined = StringHashSet::new();
    let mut i: usize = 0;
    while i < entries.len()
        invariant
            i <= entries@.len(),
            table == links(entries@),
            names(undefined@) == first_occurrences(undefined_names(table.take(i as int))),
            forall|name: Seq<char>|
                seen@.contains(name) <==> undefined_names(table.take(i as int)).contains(name),
            forall|name: Seq<char>|
                defined@.contains(name) <==> #[trigger] defines(table.take(i as int), name),
        decreases entries@.len() - i,
    {
        let ghost done = table.take(i as int);
        let ghost more = table.take(i + 1);
        proof {
            assert(more.drop_last() == done);
            assert(more.last() == entries@[i as int]@);
            assert forall|name: Seq<char>| #[trigger]
                defines(more, name) == (defines(done, name) || more.last().provides(name)) by {
                if defines(done, name) {
                    let j = choose|j: int|
                        0 <= j < done.len() && (#[trigger] done[j]).provides(name);
                    assert(more[j] == done[j]);
                }
                if defines(more, name) {
                    let j = choose|j: int|
                        0 <= j < more.len() && (#[trigger] more[j]).provides(name);
                    if j < i {
                        assert(done[j] == more[j]);
                    }
                }
                assert(more[i as int] == more.last());
            }
        }
        let entry = &entries[i];
        if let Ok(name) = &entry.name {
            if entry.undefined {
                let ghost list = undefined_names(done);
                proof {
                    assert(list.push(name@).drop_last() == list);
                    assert(list.push(name@).last() == name@);
                    assert forall|n: Seq<char>|
                        list.push(name@).contains(n) == (list.contains(n) || n == name@) by {
                        if list.contains(n) {
                            let j = list.index_of(n);
                            assert(list.push(name@)[j] == n);
                        }
                        assert(list.push(name@)[list.len() as int] == name@);
                    }
                }
                if seen.insert(name.clone()) {
                    let ghost before = undefined@;
                    undefined.push(name.clone());
                    assert(names(undefined@) == names(before).push(name@));
                }
            } else if entry.global {
                defined.insert(name.clone());
            }
        }
        i += 1;
    }
    assert(table.take(entries@.len() as int) == table);
    let mut r: Vec<String> = Vec::new();
    i = 0;
    while i < undefined.len()
        invariant
            i <= undefined@.len(),
            names(r@) == not_defined(names(undefined@).take(i as int), table),
            forall|name: Seq<char>| defined@.contains(name) <==> #[trigger] defines(table, name),
        decreases undefined@.len() - i,
    {
        let ghost more = names(undefined@).take(i + 1);
        assert(more.drop_last() == names(undefined@).take(i as int));
        assert(more.last() == undefined@[i as int]@);
        let name = &undefined[i];
        if !defined.contains(name) {
            let ghost before = r@;
            r.push(name.clone());
            assert(names(r@) == names(before).push(name@));
        }
        i += 1;
    }
    assert(names(undefined@).take(undefined@.len() as int) == names(undefined@));
    r
}

/// Whether a table has an undefined symbol of this name.
pub open spec fn wants(table: Seq<Link>, name: Seq<char>) -> bool {
    exists|i: int|
        0 <= i < table.len() && (#[trigger] table[i]).asks_for(name)
}

proof fn lemma_undefined_names(table: Seq<Link>, name: Seq<char>)
    ensures
        undefined_names(table).contains(name) <==> wants(table, name),
    decreases table.len(),
{
    if table.len() > 0 {
        let rest = table.drop_last();
        let list = undefined_names(rest);
        lemma_undefined_names(rest, name);
        if wants(rest, name) {
            let i = choose|i: int|
                0 <= i < rest.len() && (#[trigger] rest[i]).asks_for(name);
            assert(table[i] == rest[i]);
        }
        if wants(table, name) {
            let i = choose|i: int|
                0 <= i < table.len() && (#[trigger] table[i]).asks_for(name);
            if i < rest.len() {
                assert(rest[i] == table[i]);
            }
        }
        if table.last().undefined && table.last().name is Ok {
            lemma_push_contains(list, table.last().name->Ok_0, name);
            assert(table[table.len() - 1] == table.last());
        }
    }
}

/// What a list holds with one more name at its end.
pub proof fn lemma_push_contains(list: Seq<Seq<char>>, last: Seq<char>, name: Seq<char>)
    ensures
        list.push(last).contains(name) <==> list.contains(name) || name == last,
{
    if list.contains(name) {
        assert(list.push(last)[list.index_of(name)] == name);
    }
    assert(list.push(last)[list.len() as int] == last);
}

/// A list and the list of its first occurrences hold the same names, the latter each once.
pub proof fn lemma_first_occurrences(list: Seq<Seq<char>>)
    ensures
        first_occurrences(list).no_duplicates(),
        forall|name: Seq<char>|
            first_occurrences(list).contains(name) <==> #[trigger] list.contains(name),
    decreases list.len(),
{
    if list.len() > 0 {
        let rest = list.drop_last();
        lemma_first_occurrences(rest);
        assert(list == rest.push(list.last()));
        assert forall|name: Seq<char>|
            first_occurrences(list).contains(name) <==> #[trigger] list.contains(name) by {
            lemma_push_contains(rest, list.last(), name);
            lemma_push_contains(first_occurrences(rest), list.last(), name);
            assert(rest.contains(name) == first_occurrences(rest).contains(name));
        }
        if !rest.contains(list.last()) {
            assert(!first_occurrences(rest).contains(list.last()));
            assert forall|i: int, j: int|
                0 <= i < j < first_occurrences(list).len() implies #[trigger] first_occurrences(
                list,
            )[i] != #[trigger] first_occurrences(list)[j] by {
                if j == first_occurrences(rest).len() {
                    assert(first_occurrences(rest).contains(first_occurrences(list)[i]));
                }
            }
        }
    }
}

proof fn lemma_not_defined(list: Seq<Seq<char>>, table: Seq<Link>)
    requires
        list.no_duplicates(),
    ensures
        not_defined(list, table).no_duplicates(),
        forall|name: Seq<char>| #[trigger]
            not_defined(list, table).contains(name) <==> list.contains(name) && !defines(
                table,
                name,
            ),
    decreases list.len(),
{
    if list.len() > 0 {
        let rest = list.drop_last();
        lemma_not_defined(rest, table);
        assert(list == rest.push(list.last()));
        assert(!rest.contains(list.last()));
        let kept = not_defined(rest, table);
        assert forall|name: Seq<char>| #[trigger]
            not_defined(list, table).contains(name) <==> list.contains(name) && !defines(
                table,
                name,
            ) by {
            lemma_push_contains(rest, list.last(), name);
            lemma_push_contains(kept, list.last(), name);
            assert(kept.contains(name) <==> rest.contains(name) && !defines(table, name));
        }
        if !defines(table, list.last()) {
            assert(!kept.contains(list.last()));
            assert forall|i: int, j: int|
                0 <= i < j < not_defined(list, table).len() implies #[trigger] not_defined(
                list,
                table,
            )[i] != #[trigger] not_defined(list, table)[j] by {
                if j == kept.len() {
                    assert(kept.contains(not_defined(list, table)[i]));
                }
            }
        }
    }
}

/// The unresolved names are those of the undefined symbols without a global definition,
/// and none of them comes twice.
pub proof fn law_unresolved_names(table: Seq<Link>)
    ensures
        unresolved(table).no_duplicates(),
        forall|name: Seq<char>| #[trigger]
            unresolved(table).contains(name) <==> wants(table, name) && !defines(table, name),
{
    lemma_first_occurrences(undefined_names(table));
    lemma_not_defined(first_occurrences(undefined_names(table)), table);
    assert forall|name: Seq<char>| #[trigger]
        unresolved(table).contains(name) <==> wants(table, name) && !defines(table, name) by {
        lemma_undefined_names(table, name);
        assert(undefined_names(table).contains(name) == first_occurrences(
            undefined_names(table),
        ).contains(name));
    }
}

/// A name stands for a symbol of the table that has it, and behind which no other has.
pub proof fn law_last_symbol_of_a_name_counts(table: Seq<Symbol>, name: Seq<char>)
    ensures
        match lookup(table, name) {
            Some(symbol) => exists|i: int|
                0 <= i < table.len() && #[trigger] table[i] == symbol && symbol.name == Some(name)
                    && forall|j: int|
                    i < j < table.len() ==> (#[trigger] table[j]).name != Some(name),
            None => forall|i: int|
                0 <= i < table.len() ==> (#[trigger] table[i]).name != Some(name),
        },
    decreases table.len(),
{
    if table.len() > 0 {
        let rest = table.drop_last();
        assert(table[table.len() - 1] == table.last());
        if table.last().name != Some(name) {
            law_last_symbol_of_a_name_counts(rest, name);
            match lookup(rest, name) {
                Some(symbol) => {
                    let i = choose|i: int|
                        0 <= i < rest.len() && #[trigger] rest[i] == symbol && symbol.name == Some(
                            name,
                        ) && forall|j: int|
                            i < j < rest.len() ==> (#[trigger] rest[j]).name != Some(name);
                    assert(table[i] == rest[i]);
                    assert forall|j: int| i < j < table.len() implies (#[trigger] table[j]).name
                        != Some(name) by {
                        if j < rest.len() {
                            assert(table[j] == rest[j]);
                        }
                    }
                },
                None => {
                    assert forall|i: int| 0 <= i < table.len() implies (#[trigger] table[i]).name
                        != Some(name) by {
                        if i < rest.len() {
                            assert(table[i] == rest[i]);
                        }
                    }
                },
            }
        }
    }
}

/// A symbol table that can be searched by name.
pub struct SymbolTable {
    entries: Vec<SymbolEntry>,
    index: StringHashMap<usize>,
}

impl View for SymbolTable {
    type V = Seq<Symbol>;

    closed spec fn view(&self) -> Seq<Symbol> {
        symbols(self.entries@)
    }
}

/// Whether an index holds, for each name among the symbols, the place of the symbol that
/// the name stands for.
spec fn indexes(index: Map<Seq<char>, usize>, table: Seq<Symbol>) -> bool {
    forall|name: Seq<char>|
        #![trigger index.contains_key(name)]
        #![trigger lookup(table, name)]
        if index.contains_key(name) {
            index[name] < table.len() && lookup(table, name) == Some(table[index[name] as int])
        } else {
            lookup(table, name) is None
        }
}

impl SymbolTable {
    #[verifier::type_invariant]
    spec fn well_formed(self) -> bool {
        indexes(self.index@, symbols(self.entries@))
    }

    /// Makes a table of the given symbols.
    pub fn new(entries: Vec<SymbolEntry>) -> (r: SymbolTable)
        ensures
            r@ == symbols(entries@),
    {
        let ghost table = symbols(entries@);
        let mut index: StringHashMap<usize> = StringHashMap::new();
        let mut i: usize = 0;
        while i < entries.len()
            invariant
                i <= entries@.len(),
                table == symbols(entries@),
                indexes(index@, table.take(i as int)),
            decreases entries@.len() - i,
        {
            let ghost done = table.take(i as int);
            let ghost more = table.take(i + 1);
            let ghost before = index@;
            assert(more.drop_last() == done);
            assert(more.last() == entries@[i as int]@);
            assert(forall|j: int| 0 <= j < i ==> more[j] == done[j]);
            if let Some(name) = &entries[i].name {
                index.insert(name.clone(), i);
            }
            assert(indexes(index@, more)) by {
                assert forall|name: Seq<char>| #[trigger] index@.contains_key(name) implies index@[
                    name
                ] < more.len() && lookup(more, name) == Some(more[index@[name] as int]) by {
                    if before.contains_key(name) {
                    }
                }
                assert forall|name: Seq<char>| !#[trigger] index@.contains_key(name) implies lookup(
                    more,
                    name,
                ) is None by {
                    assert(!before.contains_key(name));
                }
            }
            i += 1;
        }
        assert(table.take(entries@.len() as int) == table);
        SymbolTable { entries, index }
    }

    /// Finds the symbol that a name stands for: the last one of that name.
    pub fn get(&self, name: &str) -> (r: Option<&SymbolEntry>)
        ensures
            match r {
                Some(entry) => lookup(self@, name@) == Some(entry@),
                None => lookup(self@, name@) is None,
            },
    {
        proof {
            use_type_invariant(self);
        }
        match self.index.get(name) {
            Some(i) => Some(&self.entries[*i]),
            None => None,
        }
    }
}

/// The value of a symbol table has the fields of each entry in its place.
pub proof fn law_symbol_values(entries: Seq<SymbolEntry>, i: int)
    requires
        0 <= i < entries.len(),
    ensures
        symbols(entries).len() == entries.len(),
        symbols(entries)[i].name is Some <==> entries[i].name is Some,
        entries[i].name is Some ==> symbols(entries)[i].name->0 == (entries[i].name->0)@,
        symbols(entries)[i].address == entries[i].address,
        symbols(entries)[i].kind == entries[i].kind,
        symbols(entries)[i].weak == entries[i].weak,
{
}

/// The value of a symbol table without addresses has the fields of each entry in its place.
pub proof fn law_unplaced_values(entries: Seq<UnplacedEntry>, i: int)
    requires
        0 <= i < entries.len(),
    ensures
        unplaced(entries).len() == entries.len(),
        unplaced(entries)[i].name is Some <==> entries[i].name is Some,
        entries[i].name is Some ==> unplaced(entries)[i].name->0 == (entries[i].name->0)@,
        unplaced(entries)[i].kind == entries[i].kind,
        unplaced(entries)[i].weak == entries[i].weak,
{
}

/// The value of what a symbol table says to other files has the fields of each entry in its
/// place.
pub proof fn law_link_values(entries: Seq<LinkEntry>, i: int)
    requires
        0 <= i < entries.len(),
    ensures
        links(entries).len() == entries.len(),
        links(entries)[i].name is Ok <==> entries[i].name is Ok,
        entries[i].name is Ok ==> links(entries)[i].name->Ok_0 == (entries[i].name->Ok_0)@,
        entries[i].name is Err ==> links(entries)[i].name->Err_0 == entries[i].name->Err_0,
        links(entries)[i].undefined == entries[i].undefined,
        links(entries)[i].global == entries[i].global,
{
}

/// The value of a list of names has the characters of each in its place.
pub proof fn law_name_values(list: Seq<String>, i: int)
    requires
        0 <= i < list.len(),
    ensures
        names(list).len() == list.len(),
        names(list)[i] == list[i]@,
{
}

/// A name is unresolved exactly if a symbol of that name is undefined and none of that name is
/// both defined and global.
pub proof fn law_unresolved_by_fields(table: Seq<Link>, name: Seq<char>)
    ensures
        unresolved(table).contains(name) <==> {
            &&& exists|i: int|
                0 <= i < table.len() && (#[trigger] table[i]).undefined && table[i].name is Ok
                    && table[i].name->Ok_0 == name
            &&& forall|i: int|
                0 <= i < table.len() && (#[trigger] table[i]).name is Ok && table[i].name->Ok_0
                    == name && table[i].global ==> table[i].undefined
        },
{
    law_unresolved_names(table);
    assert(unresolved(table).contains(name) <==> wants(table, name) && !defines(table, name));
    if wants(table, name) {
        let i = choose|i: int| 0 <= i < table.len() && (#[trigger] table[i]).asks_for(name);
        assert(table[i].undefined && table[i].name is Ok && table[i].name->Ok_0 == name);
    }
    if exists|i: int|
        0 <= i < table.len() && (#[trigger] table[i]).undefined && table[i].name is Ok
            && table[i].name->Ok_0 == name {
        let i = choose|i: int|
            0 <= i < table.len() && (#[trigger] table[i]).undefined && table[i].name is Ok
                && table[i].name->Ok_0 == name;
        assert(table[i].asks_for(name));
    }
    if defines(table, name) {
        let i = choose|i: int| 0 <= i < table.len() && (#[trigger] table[i]).provides(name);
        assert(table[i].global && !table[i].undefined);
    } else {
        assert forall|i: int|
            0 <= i < table.len() && (#[trigger] table[i]).name is Ok && table[i].name->Ok_0 == name
                && table[i].global implies table[i].undefined by {
            assert(!table[i].provides(name));
        }
    }
}

/// Whether the last symbol of this name is at this place of a table.
pub open spec fn last_of_name(table: Seq<Symbol>, name: Seq<char>, i: int) -> bool {
    &&& 0 <= i < table.len()
    &&& table[i].name == Some(name)
    &&& forall|j: int| i < j < table.len() ==> (#[trigger] table[j]).name != Some(name)
}

/// Whether no symbol of a table has this name.
pub open spec fn lacks_name(table: Seq<Symbol>, name: Seq<char>) -> bool {
    forall|i: int| 0 <= i < table.len() ==> (#[trigger] table[i]).name != Some(name)
}

/// A name stands for the last symbol that has it, and for none exactly if none has it.
pub proof fn law_lookup_finds_the_last(table: Seq<Symbol>, name: Seq<char>, i: int)
    ensures
        last_of_name(table, name, i) ==> lookup(table, name) == Some(table[i]),
        lacks_name(table, name) <==> lookup(table, name) is None,
{
    law_last_symbol_of_a_name_counts(table, name);
    if last_of_name(table, name, i) && lookup(table, name) is Some {
        let k = choose|k: int|
            0 <= k < table.len() && #[trigger] table[k] == lookup(table, name)->0 && (lookup(
                table,
                name,
            )->0).name == Some(name) && forall|j: int|
                k < j < table.len() ==> (#[trigger] table[j]).name != Some(name);
        assert(table[k].name == Some(name));
        assert(!(k < i));
        assert(!(i < k));
    }
}

/// Where a name stands for a symbol, that symbol is the last of the name.
pub proof fn law_found_symbol_is_the_last(table: Seq<Symbol>, name: Seq<char>) -> (i: int)
    requires
        lookup(table, name) is Some,
    ensures
        last_of_name(table, name, i),
        lookup(table, name) == Some(table[i]),
{
    law_last_symbol_of_a_name_counts(table, name);
    choose|i: int|
        0 <= i < table.len() && #[trigger] table[i] == lookup(table, name)->0 && (lookup(
            table,
            name,
        )->0).name == Some(name) && forall|j: int|
            i < j < table.len() ==> (#[trigger] table[j]).name != Some(name)
}

} // verus!
