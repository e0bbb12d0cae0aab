use vstd::prelude::*;
use crate::expr::{Expr, ExprV};
use crate::number::Comparison;
use vstd::string::*;

pub mod simplifiers;

verus! {

/// Whether `c` has the Unicode `White_Space` property.
pub open spec fn spec_is_whitespace(c: char) -> bool {
    ||| ('\u{9}' <= c && c <= '\u{d}')
    ||| c == ' '
    ||| c == '\u{85}'
    ||| c == '\u{a0}'
    ||| c == '\u{1680}'
    ||| ('\u{2000}' <= c && c <= '\u{200a}')
    ||| c == '\u{2028}'
    ||| c == '\u{2029}'
    ||| c == '\u{202f}'
    ||| c == '\u{205f}'
    ||| c == '\u{3000}'
}

/// Whether `c` is whitespace: the characters with the Unicode `White_Space`
/// property, as `char::is_whitespace` tells them.
fn char_is_whitespace(c: char) -> (r: bool)
    ensures
        r == spec_is_whitespace(c),
{
    ('\u{9}' <= c && c <= '\u{d}')
        || c == ' '
        || c == '\u{85}'
        || c == '\u{a0}'
        || c == '\u{1680}'
        || ('\u{2000}' <= c && c <= '\u{200a}')
        || c == '\u{2028}'
        || c == '\u{2029}'
        || c == '\u{202f}'
        || c == '\u{205f}'
        || c == '\u{3000}'
}

/// An identifier for functions and variables: non-empty, without whitespace.
#[derive(Debug, PartialEq, Eq, Hash, PartialOrd, Ord)]
pub struct Symbol(String);

/// Whether `s` is a valid symbol name.
pub open spec fn valid_name(s: Seq<char>) -> bool {
    s.len() > 0 && forall|i: int| 0 <= i < s.len() ==> !spec_is_whitespace(#[trigger] s[i])
}

impl View for Symbol {
    type V = Seq<char>;

    closed spec fn view(&self) -> Seq<char> {
        self.0@
    }
}

impl Symbol {
    /// The symbol `abs`.
    pub fn abs() -> (r: Symbol)
        ensures
            r@ == "abs"@,
    {
        Symbol(String::from_str("abs"))
    }

    /// The symbol `ceil`.
    pub fn ceil() -> (r: Symbol)
        ensures
            r@ == "ceil"@,
    {
        Symbol(String::from_str("ceil"))
    }

    /// The symbol `e`.
    pub fn e() -> (r: Symbol)
        ensures
            r@ == "e"@,
    {
        Symbol(String::from_str("e"))
    }

    /// The symbol `floor`.
    pub fn floor() -> (r: Symbol)
        ensures
            r@ == "floor"@,
    {
        Symbol(String::from_str("floor"))
    }

    /// The symbol `max`.
    pub fn max() -> (r: Symbol)
        ensures
            r@ == "max"@,
    {
        Symbol(String::from_str("max"))
    }

    /// The symbol `min`.
    pub fn min() -> (r: Symbol)
        ensures
            r@ == "min"@,
    {
        Symbol(String::from_str("min"))
    }

    /// The symbol `pi`.
    pub fn pi() -> (r: Symbol)
        ensures
            r@ == "pi"@,
    {
        Symbol(String::from_str("pi"))
    }

    /// The symbol `round`.
    pub fn round() -> (r: Symbol)
        ensures
            r@ == "round"@,
    {
        Symbol(String::from_str("round"))
    }

    /// The symbol `trunc`.
    pub fn trunc() -> (r: Symbol)
        ensures
            r@ == "trunc"@,
    {
        Symbol(String::from_str("trunc"))
    }

    /// Gets the name of this symbol.
    pub fn name(&self) -> (r: &str)
        ensures
            r@ == self@,
    {
        self.0.as_str()
    }

    /// Creates a new symbol; `None` when the name is empty or contains whitespace.
    pub fn new(name: String) -> (r: Option<Symbol>)
        ensures
            r is Some <==> valid_name(name@),
            r matches Some(s) ==> s@ == name@,
    {
        let len = name.as_str().unicode_len();
        if len == 0 {
            return None;
        }
        let mut i: usize = 0;
        while i < len
            invariant
                len == name@.len(),
                i <= len,
                forall|j: int| 0 <= j < i ==> !spec_is_whitespace(#[trigger] name@[j]),
            decreases len - i,
        {
            if char_is_whitespace(name.as_str().get_char(i)) {
                return None;
            }
            i = i + 1;
        }
        Some(Symbol(name))
    }
}


/// The lexicographic order of two names, by character codes.
pub open spec fn symbol_order(a: Seq<char>, b: Seq<char>) -> Comparison
    decreases a.len(),
{
    if a.len() == 0 || b.len() == 0 {
        if a.len() < b.len() {
            Comparison::Less
        } else if a.len() == b.len() {
            Comparison::Equal
        } else {
            Comparison::Greater
        }
    } else if a[0] < b[0] {
        Comparison::Less
    } else if a[0] > b[0] {
        Comparison::Greater
    } else {
        symbol_order(a.drop_first(), b.drop_first())
    }
}


impl Clone for Symbol {
    fn clone(&self) -> (r: Self)
        ensures
            r@ == self@,
    {
        Symbol(self.0.clone())
    }
}

impl Symbol {
    /// Whether two symbols have the same name.
    pub fn same(&self, other: &Symbol) -> (r: bool)
        ensures
            r == (self@ == other@),
    {
        self.0 == other.0
    }

    /// Compares the names of two symbols lexicographically.
    pub fn compare(&self, other: &Symbol) -> (r: Comparison)
        ensures
            r == symbol_order(self@, other@),
    {
        let a = self.0.as_str();
        let b = other.0.as_str();
        let la = a.unicode_len();
        let lb = b.unicode_len();
        let mut i: usize = 0;
        assert(self@.subrange(0, la as int) =~= self@);
        assert(other@.subrange(0, lb as int) =~= other@);
        while i < la && i < lb
            invariant
                la == self@.len(),
                lb == other@.len(),
                a@ == self@,
                b@ == other@,
                i <= la,
                i <= lb,
                symbol_order(self@, other@) == symbol_order(
                    self@.subrange(i as int, la as int),
                    other@.subrange(i as int, lb as int),
                ),
            decreases la - i,
        {
            let ca = a.get_char(i);
            let cb = b.get_char(i);
            let ghost x = self@.subrange(i as int, la as int);
            let ghost y = other@.subrange(i as int, lb as int);
            assert(x[0] == ca && y[0] == cb);
            if ca < cb {
                return Comparison::Less;
            }
            if ca > cb {
                return Comparison::Greater;
            }
            assert(x.drop_first() =~= self@.subrange(i + 1, la as int));
            assert(y.drop_first() =~= other@.subrange(i + 1, lb as int));
            i = i + 1;
        }
        if la < lb {
            Comparison::Less
        } else if la == lb {
            Comparison::Equal
        } else {
            Comparison::Greater
        }
    }
}

/// The map that a list of (symbol, value) entries denotes; later entries
/// win.
pub open spec fn entries_map<V: View>(s: Seq<(Symbol, V)>) -> Map<Seq<char>, V::V>
    decreases s.len(),
{
    if s.len() == 0 {
        Map::empty()
    } else {
        entries_map(s.drop_last()).insert(s.last().0@, s.last().1@)
    }
}

/// No two entries have the same name.
pub open spec fn unique_keys<V>(s: Seq<(Symbol, V)>) -> bool {
    forall|i: int, j: int| #![trigger s[i], s[j]] 0 <= i < j < s.len() ==> s[i].0@ != s[j].0@
}

proof fn lemma_entries_map<V: View>(s: Seq<(Symbol, V)>)
    requires
        unique_keys(s),
    ensures
        forall|k: Seq<char>| #[trigger] entries_map(s).contains_key(k) <==> exists|i: int|
            0 <= i < s.len() && #[trigger] s[i].0@ == k,
        forall|i: int| 0 <= i < s.len() ==> #[trigger] entries_map(s)[s[i].0@] == s[i].1@,
    decreases s.len(),
{
    if s.len() > 0 {
        let t = s.drop_last();
        assert(unique_keys(t)) by {
            assert forall|i: int, j: int| #![trigger t[i], t[j]] 0 <= i < j < t.len() implies t[i].0@
                != t[j].0@ by {
                assert(t[i] == s[i] && t[j] == s[j]);
            }
        }
        lemma_entries_map(t);
        assert forall|k: Seq<char>| #[trigger] entries_map(s).contains_key(k) implies exists|i: int|
            0 <= i < s.len() && #[trigger] s[i].0@ == k by {
            if k != s.last().0@ {
                assert(entries_map(t).contains_key(k));
                let i = choose|i: int| 0 <= i < t.len() && #[trigger] t[i].0@ == k;
                assert(s[i] == t[i]);
            } else {
                assert(s[s.len() - 1].0@ == k);
            }
        }
        assert forall|k: Seq<char>| (exists|i: int| 0 <= i < s.len() && #[trigger] s[i].0@ == k) implies #[trigger] entries_map(s).contains_key(k) by {
            let i = choose|i: int| 0 <= i < s.len() && #[trigger] s[i].0@ == k;
            if i < s.len() - 1 {
                assert(t[i] == s[i]);
                assert(entries_map(t).contains_key(k));
            }
        }
        assert forall|i: int| 0 <= i < s.len() implies #[trigger] entries_map(s)[s[i].0@] == s[i].1@ by {
            let last = s[s.len() - 1];
            assert(entries_map(s) == entries_map(t).insert(last.0@, last.1@));
            if i < s.len() - 1 {
                assert(t[i] == s[i]);
                assert(s[i].0@ != last.0@);
                assert(entries_map(t)[t[i].0@] == t[i].1@);
            }
        }
    }
}

/// A value that can be kept in a `SymbolMap`: it has a validity condition and
/// can be duplicated.
pub trait Entry: View + Sized {
    /// The value is valid.
    spec fn ok(&self) -> bool;

    /// A copy with the same value.
    fn duplicate(&self) -> (r: Self)
        ensures
            r@ == self@,
            self.ok() ==> r.ok(),
    ;
}

/// A map from symbols to values, kept as a list of entries with distinct
/// names.
pub struct SymbolMap<V> {
    entries: Vec<(Symbol, V)>,
}

impl<V: View> View for SymbolMap<V> {
    type V = Map<Seq<char>, V::V>;

    closed spec fn view(&self) -> Map<Seq<char>, V::V> {
        entries_map(self.entries@)
    }
}

impl<V: Entry> SymbolMap<V> {
    /// The entries have distinct names.
    pub closed spec fn wf(&self) -> bool {
        unique_keys(self.entries@)
    }

    /// Every value of the map is valid.
    pub closed spec fn all_ok(&self) -> bool {
        forall|i: int| 0 <= i < self.entries@.len() ==> (#[trigger] self.entries@[i]).1.ok()
    }

    /// An empty map.
    pub fn new() -> (r: Self)
        ensures
            r.wf(),
            r@ == Map::<Seq<char>, V::V>::empty(),
            r.all_ok(),
    {
        SymbolMap { entries: Vec::new() }
    }

    /// The value stored under the name of `key`.
    pub fn get(&self, key: &Symbol) -> (r: Option<&V>)
        requires
            self.wf(),
        ensures
            r is Some <==> self@.contains_key(key@),
            r matches Some(v) ==> v@ == self@[key@] && (self.all_ok() ==> v.ok()),
    {
        proof {
            lemma_entries_map(self.entries@);
        }
        let n = self.entries.len();
        for i in 0..n
            invariant
                n == self.entries@.len(),
                self.wf(),
                forall|j: int| 0 <= j < i ==> (#[trigger] self.entries@[j]).0@ != key@,
        {
            if self.entries[i].0.same(key) {
                proof {
                    lemma_entries_map(self.entries@);
                    let e = self.entries@[i as int];
                    assert(entries_map(self.entries@)[e.0@] == e.1@);
                    assert(entries_map(self.entries@).contains_key(e.0@));
                    assert(self.all_ok() ==> self.entries@[i as int].1.ok());
                }
                return Some(&self.entries[i].1);
            }
        }
        None
    }

    /// Stores `value` under the name of `key`, replacing an earlier value.
    pub fn insert(&mut self, key: Symbol, value: V)
        requires
            old(self).wf(),
        ensures
            final(self).wf(),
            final(self)@ == old(self)@.insert(key@, value@),
            old(self).all_ok() && value.ok() ==> final(self).all_ok(),
    {
        let ghost s = self.entries@;
        proof {
            lemma_entries_map(s);
        }
        let n = self.entries.len();
        let mut i: usize = 0;
        while i < n
            invariant
                n == self.entries@.len(),
                s == self.entries@,
                s == old(self).entries@,
                unique_keys(s),
                i <= n,
                forall|j: int| 0 <= j < i ==> (#[trigger] s[j]).0@ != key@,
            decreases n - i,
        {
            if self.entries[i].0.same(&key) {
                let ghost kv = key@;
                let ghost vv = value@;
                let ghost val = value;
                let ghost kk = key;
                self.entries.set(i, (key, value));
                proof {
                    assert(self.entries@[i as int] == (kk, val));
                    lemma_entries_map(s);
                    assert(s[i as int].0@ == kv);
                    let t = self.entries@;
                    assert(t == s.update(i as int, t[i as int]));
                    assert(unique_keys(t)) by {
                        assert forall|a: int, b: int| #![trigger t[a], t[b]] 0 <= a < b < t.len()
                            implies t[a].0@ != t[b].0@ by {
                            assert(t[a].0@ == s[a].0@);
                            assert(t[b].0@ == s[b].0@);
                            assert(s[a].0@ != s[b].0@);
                        }
                    }
                    lemma_entries_map(t);
                    assert(self@ =~= entries_map(s).insert(kv, vv)) by {
                        assert forall|k: Seq<char>| #[trigger] self@.contains_key(k) implies entries_map(
                            s,
                        ).insert(kv, vv).contains_key(k) by {
                            let j = choose|j: int| 0 <= j < t.len() && #[trigger] t[j].0@ == k;
                            assert(s[j].0@ == k);
                        }
                        assert forall|k: Seq<char>| #[trigger] entries_map(s).insert(kv, vv).contains_key(
                            k,
                        ) implies self@.contains_key(k) by {
                            if k != kv {
                                let j = choose|j: int| 0 <= j < s.len() && #[trigger] s[j].0@ == k;
                                assert(t[j].0@ == k);
                            }
                        }
                        assert forall|k: Seq<char>| #[trigger] self@.contains_key(k) implies self@[k]
                            == entries_map(s).insert(kv, vv)[k] by {
                            let j = choose|j: int| 0 <= j < t.len() && #[trigger] t[j].0@ == k;
                            if j != i {
                                assert(t[j] == s[j]);
                            }
                        }
                    }
                    if old(self).all_ok() && val.ok() {
                        assert forall|j: int| 0 <= j < t.len() implies (#[trigger] t[j]).1.ok() by {
                            if j != i {
                                assert(t[j] == s[j]);
                                assert(old(self).entries@[j].1.ok());
                            } else {
                                assert(t[j].1 == val);
                            }
                        }
                    }
                    assert(self@ == entries_map(s).insert(kv, vv));
                    assert(old(self)@ == entries_map(s));
                }
                return ;
            }
            i = i + 1;
        }
        let ghost kv = key@;
        let ghost vv = value@;
        let ghost val = value;
        self.entries.push((key, value));
        proof {
            let t = self.entries@;
            assert(t.drop_last() =~= s);
            assert(unique_keys(t)) by {
                assert forall|a: int, b: int| #![trigger t[a], t[b]] 0 <= a < b < t.len() implies t[a].0@
                    != t[b].0@ by {
                    if b < s.len() {
                        assert(t[a] == s[a] && t[b] == s[b]);
                    } else {
                        assert(t[a] == s[a]);
                    }
                }
            }
            if old(self).all_ok() && val.ok() {
                assert forall|j: int| 0 <= j < t.len() implies (#[trigger] t[j]).1.ok() by {
                    if j < s.len() {
                        assert(t[j] == s[j]);
                        assert(old(self).entries@[j].1.ok());
                    }
                }
            }
        }
    }
}

impl<V: Entry> SymbolMap<V> {
    /// A copy with the same entries.
    pub fn duplicate(&self) -> (r: Self)
        requires
            self.wf(),
        ensures
            r.wf(),
            r@ == self@,
            self.all_ok() ==> r.all_ok(),
    {
        let mut entries: Vec<(Symbol, V)> = Vec::new();
        let n = self.entries.len();
        for i in 0..n
            invariant
                n == self.entries@.len(),
                entries@.len() == i,
                forall|j: int| 0 <= j < i ==> (#[trigger] entries@[j]).0@ == self.entries@[j].0@
                    && entries@[j].1@ == self.entries@[j].1@ && (self.entries@[j].1.ok()
                    ==> entries@[j].1.ok()),
        {
            let k = self.entries[i].0.clone();
            let v = self.entries[i].1.duplicate();
            entries.push((k, v));
        }
        let r = SymbolMap { entries };
        proof {
            lemma_same_entries_map(r.entries@, self.entries@);
            assert(unique_keys(r.entries@)) by {
                let t = r.entries@;
                let s = self.entries@;
                assert forall|a: int, b: int| #![trigger t[a], t[b]] 0 <= a < b < t.len() implies t[a].0@
                    != t[b].0@ by {
                    assert(s[a].0@ != s[b].0@);
                }
            }
            if self.all_ok() {
                assert forall|j: int| 0 <= j < r.entries@.len() implies (#[trigger] r.entries@[j]).1.ok() by {
                    assert(self.entries@[j].1.ok());
                }
            }
        }
        r
    }
}

proof fn lemma_same_entries_map<V: View>(t: Seq<(Symbol, V)>, s: Seq<(Symbol, V)>)
    requires
        t.len() == s.len(),
        forall|j: int| 0 <= j < t.len() ==> (#[trigger] t[j]).0@ == s[j].0@ && t[j].1@ == s[j].1@,
    ensures
        entries_map(t) == entries_map(s),
    decreases t.len(),
{
    if t.len() > 0 {
        let t2 = t.drop_last();
        let s2 = s.drop_last();
        assert forall|j: int| 0 <= j < t2.len() implies (#[trigger] t2[j]).0@ == s2[j].0@ && t2[j].1@ == s2[j].1@ by {
            assert(t2[j] == t[j] && s2[j] == s[j]);
        }
        lemma_same_entries_map(t2, s2);
        assert(t.last().0@ == s.last().0@);
    }
}

impl Entry for Simplifier {
    open spec fn ok(&self) -> bool {
        true
    }

    fn duplicate(&self) -> (r: Self) {
        *self
    }
}

/// A built-in simplification of a function call.
#[derive(Clone, Copy, Debug, PartialEq, Eq, Structural)]
pub enum Simplifier {
    Abs,
    Ceil,
    Floor,
    Max,
    Min,
    Round,
    Trunc,
}

impl View for Simplifier {
    type V = Simplifier;

    open spec fn view(&self) -> Simplifier {
        *self
    }
}

/// The value of a function: its body, name and parameter names.
pub struct FunctionV {
    pub body: ExprV,
    pub name: Seq<char>,
    pub params: Seq<Seq<char>>,
}

/// Represents a user-defined function that can be inserted during
/// simplification.
#[derive(Debug)]
pub struct Function {
    /// The function body that gets inserted when calling the function.
    pub body: Expr,
    /// The name of the function.
    pub name: Symbol,
    /// The parameters required by this function.
    pub params: Vec<Symbol>,
}

/// The names of a sequence of symbols.
pub open spec fn symbols_view(s: Seq<Symbol>) -> Seq<Seq<char>> {
    s.map_values(|x: Symbol| x@)
}

impl View for Function {
    type V = FunctionV;

    open spec fn view(&self) -> FunctionV {
        FunctionV { body: self.body@, name: self.name@, params: symbols_view(self.params@) }
    }
}

impl Function {
    /// Creates a new function.
    pub fn new(body: Expr, name: Symbol, params: Vec<Symbol>) -> (r: Self)
        ensures
            r@ == (FunctionV { body: body@, name: name@, params: symbols_view(params@) }),
            body.wf() ==> r.ok(),
    {
        Function { body, name, params }
    }
}

impl Entry for Function {
    open spec fn ok(&self) -> bool {
        self.body.wf()
    }

    fn duplicate(&self) -> (r: Self) {
        let mut params: Vec<Symbol> = Vec::new();
        let n = self.params.len();
        for i in 0..n
            invariant
                n == self.params@.len(),
                params@.len() == i,
                forall|j: int| 0 <= j < i ==> (#[trigger] params@[j])@ == self.params@[j]@,
        {
            params.push(self.params[i].clone());
        }
        proof {
            assert(symbols_view(params@) =~= symbols_view(self.params@));
        }
        Function { body: self.body.copy(), name: self.name.clone(), params }
    }
}

impl Entry for Expr {
    open spec fn ok(&self) -> bool {
        self.wf()
    }

    fn duplicate(&self) -> (r: Self) {
        self.copy()
    }
}

/// The value of a context: its functions, simplifiers and variables by name.
pub struct ContextV {
    pub functions: Map<Seq<char>, FunctionV>,
    pub simplifiers: Map<Seq<char>, Simplifier>,
    pub variables: Map<Seq<char>, ExprV>,
}

/// The global data of a session: functions, simplifiers and variables. The
/// floating-point constants and evaluators live with the evaluation code.
pub struct Context {
    /// The functions declared in this context.
    pub functions: SymbolMap<Function>,
    /// The simplifiers declared in this context.
    pub simplifiers: SymbolMap<Simplifier>,
    /// The variables stored in this context.
    pub variables: SymbolMap<Expr>,
}

impl View for Context {
    type V = ContextV;

    open spec fn view(&self) -> ContextV {
        ContextV { functions: self.functions@, simplifiers: self.simplifiers@, variables: self.variables@ }
    }
}

impl Context {
    /// The maps have distinct names and hold well-formed expressions.
    pub open spec fn wf(&self) -> bool {
        &&& self.functions.wf()
        &&& self.simplifiers.wf()
        &&& self.variables.wf()
        &&& self.functions.all_ok()
        &&& self.variables.all_ok()
    }

    /// Creates a new, empty context. You usually want `Self::new` instead.
    pub fn empty() -> (r: Self)
        ensures
            r.wf(),
            r@.functions == Map::<Seq<char>, FunctionV>::empty(),
            r@.simplifiers == Map::<Seq<char>, Simplifier>::empty(),
            r@.variables == Map::<Seq<char>, ExprV>::empty(),
    {
        Context { functions: SymbolMap::new(), simplifiers: SymbolMap::new(), variables: SymbolMap::new() }
    }

    /// Creates a new context with the predefined simplifiers.
    pub fn new() -> (r: Self)
        ensures
            r.wf(),
            r@.functions == Map::<Seq<char>, FunctionV>::empty(),
            r@.variables == Map::<Seq<char>, ExprV>::empty(),
            r@.simplifiers == default_simplifiers(),
    {
        let mut ctx = Self::empty();
        ctx.simplifiers.insert(Symbol::abs(), Simplifier::Abs);
        ctx.simplifiers.insert(Symbol::ceil(), Simplifier::Ceil);
        ctx.simplifiers.insert(Symbol::floor(), Simplifier::Floor);
        ctx.simplifiers.insert(Symbol::max(), Simplifier::Max);
        ctx.simplifiers.insert(Symbol::min(), Simplifier::Min);
        ctx.simplifiers.insert(Symbol::round(), Simplifier::Round);
        ctx.simplifiers.insert(Symbol::trunc(), Simplifier::Trunc);
        ctx
    }

    /// A copy of the context.
    pub fn duplicate(&self) -> (r: Self)
        requires
            self.wf(),
        ensures
            r.wf(),
            r@ == self@,
    {
        Context {
            functions: self.functions.duplicate(),
            simplifiers: self.simplifiers.duplicate(),
            variables: self.variables.duplicate(),
        }
    }
}

/// The simplifiers of a new context, by name.
pub open spec fn default_simplifiers() -> Map<Seq<char>, Simplifier> {
    Map::empty().insert("abs"@, Simplifier::Abs).insert("ceil"@, Simplifier::Ceil).insert(
        "floor"@,
        Simplifier::Floor,
    ).insert("max"@, Simplifier::Max).insert("min"@, Simplifier::Min).insert(
        "round"@,
        Simplifier::Round,
    ).insert("trunc"@, Simplifier::Trunc)
}
} // verus!
