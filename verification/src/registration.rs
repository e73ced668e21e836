//! Registrations: groups of patterns that share rules.

use vstd::prelude::*;
use vstd::string::*;

use crate::routing::MethodGap;
use crate::slot::MethodMatch;

verus! {

/// What a method match says.
pub ghost enum Methods {
    Any,
    OneOf(Seq<http::Method>),
}

/// What a method match says.
pub open spec fn methods_of(methods: MethodMatch) -> Methods {
    match methods {
        MethodMatch::Any => Methods::Any,
        MethodMatch::OneOf(ms) => Methods::OneOf(ms@),
    }
}

/// Copies a method match.
pub fn copy_methods(methods: &MethodMatch) -> (copy: MethodMatch)
    ensures
        methods_of(copy) == methods_of(*methods),
{
    match methods {
        MethodMatch::Any => MethodMatch::Any,
        MethodMatch::OneOf(ms) => {
            let mut list: Vec<http::Method> = Vec::new();
            let mut i: usize = 0;
            while i < ms.len()
                invariant
                    i <= ms@.len(),
                    list@ == ms@.take(i as int),
                decreases ms@.len() - i,
            {
                list.push(ms[i].clone());
                assert(ms@.take(i + 1) =~= ms@.take(i as int).push(ms@[i as int]));
                i = i + 1;
            }
            assert(list@ =~= ms@);
            MethodMatch::OneOf(list)
        },
    }
}

/// What a registration says: its patterns, whether their tails are exclusive, what the
/// paths mean for methods without a rule, and the rules, each with its methods.
#[verifier::ext_equal]
pub ghost struct Plan<R> {
    pub patterns: Seq<Seq<char>>,
    pub opaque: bool,
    pub gap: MethodGap,
    pub rules: Seq<(Methods, R)>,
}

/// The patterns that cover a path and everything beneath it.
pub open spec fn subtree_texts(path: Seq<char>) -> Seq<Seq<char>> {
    if path.len() > 0 && path.last() == '/' {
        seq![path, path + "{*rest}"@]
    } else {
        seq![path, path + "/"@, path + "/{*rest}"@]
    }
}

/// The texts of some strings.
pub open spec fn texts(strings: Seq<String>) -> Seq<Seq<char>> {
    strings.map_values(|s: String| s@)
}

/// Expands a path into the patterns that cover that path and everything beneath it: the
/// expansion behind `subtree`-style builder methods.
///
/// - `/blah`  becomes `/blah`, `/blah/`, `/blah/{*rest}`
/// - `/blah/` becomes `/blah/`, `/blah/{*rest}` (the bare `/blah` is *not* covered)
/// - `/`      becomes `/`, `/{*rest}` (the whole tree)
///
/// A trailing slash on the input therefore means "this directory and its contents, but
/// not the bare name". A catch-all matches neither the empty remainder nor the bare path,
/// so the literal and trailing-slash patterns stand alongside it.
#[must_use]
pub fn subtree_patterns(path: &str) -> (patterns: Vec<String>)
    ensures
        texts(patterns@) == subtree_texts(path@),
{
    let len: usize = path.unicode_len();
    let mut patterns: Vec<String> = Vec::new();
    patterns.push(path.to_owned());
    if len > 0 && path.get_char(len - 1) == '/' {
        let mut tail = path.to_owned();
        tail.append("{*rest}");
        patterns.push(tail);
    } else {
        let mut slash = path.to_owned();
        slash.append("/");
        patterns.push(slash);
        let mut tail = path.to_owned();
        tail.append("/{*rest}");
        patterns.push(tail);
    }
    assert(texts(patterns@) =~= subtree_texts(path@));
    patterns
}

fn one_pattern(pattern: &str) -> (patterns: Vec<String>)
    ensures
        texts(patterns@) == seq![pattern@],
{
    let mut patterns: Vec<String> = Vec::new();
    patterns.push(pattern.to_owned());
    assert(texts(patterns@) =~= seq![pattern@]);
    patterns
}

/// One registration: a group of patterns sharing one rule, the unit of **rule
/// identity**. Each registration receives the rule id equal to its position, so patterns
/// in one registration can never end up under different rules, and a rule can never be
/// silently detached from its patterns.
///
/// A method that the registration does not list selects the default rule on its paths.
#[derive(Clone, Debug)]
pub struct Registration<R> {
    /// The patterns this registration covers, all under one rule id. Must contain at
    /// least one pattern; an empty list is rejected at build time.
    pub patterns: Vec<String>,
    /// The rule every pattern resolves to.
    pub rule: R,
    /// Forbids nested paths beneath a catch-all. Set only by `exclusive_subtree`.
    pub opaque: bool,
    /// Which method(s) the rule applies to. Path precedence is resolved before this
    /// value.
    pub method: MethodMatch,
}

impl<R> View for Registration<R> {
    type V = Plan<R>;

    open spec fn view(&self) -> Plan<R> {
        Plan {
            patterns: texts(self.patterns@),
            opaque: self.opaque,
            gap: MethodGap::Default,
            rules: seq![(methods_of(self.method), self.rule)],
        }
    }
}

impl<R> Registration<R> {
    /// Groups patterns under one rule identity.
    ///
    /// Unlike separate registrations, changes between these patterns do not cross a rule
    /// boundary. An empty list is rejected when building.
    pub fn patterns(patterns: Vec<String>, rule: R) -> (registration: Self)
        ensures
            registration == (Registration { patterns, rule, opaque: false, method: MethodMatch::Any }),
    {
        Registration { patterns, rule, opaque: false, method: MethodMatch::Any }
    }

    /// A single exact-match pattern.
    pub fn route(pattern: &str, rule: R) -> (registration: Self)
        ensures
            texts(registration.patterns@) == seq![pattern@],
            registration.rule == rule,
            !registration.opaque,
            registration.method == MethodMatch::Any,
    {
        Registration::patterns(one_pattern(pattern), rule)
    }

    /// A path and everything beneath it, expanded via [`subtree_patterns`].
    pub fn subtree(path: &str, rule: R) -> (registration: Self)
        ensures
            texts(registration.patterns@) == subtree_texts(path@),
            registration.rule == rule,
            !registration.opaque,
            registration.method == MethodMatch::Any,
    {
        Registration::patterns(subtree_patterns(path), rule)
    }

    /// Like [`subtree`](Self::subtree), but rejects paths that take precedence beneath
    /// it, including through overlapping literal and wildcard branches, in either
    /// registration order. Lower-priority fallbacks and method rules at the same path
    /// patterns remain valid. Request-time checks are unchanged.
    pub fn exclusive_subtree(path: &str, rule: R) -> (registration: Self)
        ensures
            texts(registration.patterns@) == subtree_texts(path@),
            registration.rule == rule,
            registration.opaque,
            registration.method == MethodMatch::Any,
    {
        Registration {
            patterns: subtree_patterns(path),
            rule,
            opaque: true,
            method: MethodMatch::Any,
        }
    }

    /// Restrict the registration to the given method(s): a bare [`http::Method`], an
    /// array, or a `Vec` of them, all under the registration's single rule id.
    /// Path precedence is resolved before method matching.
    #[must_use]
    pub fn for_methods<M: Into<MethodMatch>>(self, method: M) -> (registration: Self)
        requires
            call_requires(M::into, (method,)),
        ensures
            registration.patterns == self.patterns,
            registration.rule == self.rule,
            registration.opaque == self.opaque,
            call_ensures(M::into, (method,), registration.method),
    {
        Registration { method: method.into(), ..self }
    }
}

/// Paths with their own table of rules by method.
///
/// Every rule definition has an identity of its own, shared by all the paths. A method
/// without a rule is denied at these paths, unless
/// [`fallback_inherit`](Self::fallback_inherit) lets lookup continue with the next
/// matching path.
#[derive(Clone, Debug)]
pub struct PathRegistration<R> {
    /// The patterns, at least one.
    pub patterns: Vec<String>,
    /// Forbids nested paths beneath a catch-all. Set only by `exclusive_subtree`.
    pub opaque: bool,
    /// Whether lookup continues for methods without a rule here.
    pub inherit: bool,
    /// The rule definitions, each with its methods.
    pub rules: Vec<(MethodMatch, R)>,
}

/// What a rule definition says.
pub open spec fn rules_of<R>(rules: Seq<(MethodMatch, R)>) -> Seq<(Methods, R)> {
    rules.map_values(|rule: (MethodMatch, R)| (methods_of(rule.0), rule.1))
}

/// What a path without a rule for the method means.
pub open spec fn gap_of(inherit: bool) -> MethodGap {
    if inherit {
        MethodGap::Inherit
    } else {
        MethodGap::Deny
    }
}

impl<R> View for PathRegistration<R> {
    type V = Plan<R>;

    open spec fn view(&self) -> Plan<R> {
        Plan {
            patterns: texts(self.patterns@),
            opaque: self.opaque,
            gap: gap_of(self.inherit),
            rules: rules_of(self.rules@),
        }
    }
}

impl<R> PathRegistration<R> {
    /// Several patterns with one table. An empty list is rejected when building.
    pub fn patterns(patterns: Vec<String>) -> (registration: Self)
        ensures
            registration@ == (Plan {
                patterns: texts(patterns@),
                opaque: false,
                gap: MethodGap::Deny,
                rules: Seq::<(Methods, R)>::empty(),
            }),
    {
        let registration = PathRegistration {
            patterns,
            opaque: false,
            inherit: false,
            rules: Vec::new(),
        };
        assert(registration@.rules =~= Seq::empty());
        registration
    }

    /// One exact path or whole-segment pattern.
    pub fn path(pattern: &str) -> (registration: Self)
        ensures
            registration@ == (Plan {
                patterns: seq![pattern@],
                opaque: false,
                gap: MethodGap::Deny,
                rules: Seq::<(Methods, R)>::empty(),
            }),
    {
        PathRegistration::patterns(one_pattern(pattern))
    }

    /// A path and everything beneath it, expanded via [`subtree_patterns`].
    pub fn subtree(path: &str) -> (registration: Self)
        ensures
            registration@ == (Plan {
                patterns: subtree_texts(path@),
                opaque: false,
                gap: MethodGap::Deny,
                rules: Seq::<(Methods, R)>::empty(),
            }),
    {
        PathRegistration::patterns(subtree_patterns(path))
    }

    /// Like [`subtree`](Self::subtree), but rejects paths that take precedence beneath it.
    pub fn exclusive_subtree(path: &str) -> (registration: Self)
        ensures
            registration@ == (Plan {
                patterns: subtree_texts(path@),
                opaque: true,
                gap: MethodGap::Deny,
                rules: Seq::<(Methods, R)>::empty(),
            }),
    {
        PathRegistration { opaque: true, ..PathRegistration::subtree(path) }
    }

    /// Adds a path to the group.
    #[must_use]
    pub fn with_path(self, pattern: &str) -> (registration: Self)
        ensures
            registration@ == (Plan { patterns: self@.patterns + seq![pattern@], ..self@ }),
    {
        self.with_patterns(one_pattern(pattern))
    }

    /// Adds a path and everything beneath it to the group.
    #[must_use]
    pub fn with_subtree(self, path: &str) -> (registration: Self)
        ensures
            registration@ == (Plan { patterns: self@.patterns + subtree_texts(path@), ..self@ }),
    {
        self.with_patterns(subtree_patterns(path))
    }

    fn with_patterns(self, more: Vec<String>) -> (registration: Self)
        ensures
            registration@ == (Plan { patterns: self@.patterns + texts(more@), ..self@ }),
    {
        let ghost before = self.patterns@;
        let ghost added = more@;
        let mut more = more;
        let mut patterns = self.patterns;
        patterns.append(&mut more);
        assert(patterns@ =~= before + added);
        assert(texts(patterns@) =~= texts(before) + texts(added));
        PathRegistration {
            patterns,
            opaque: self.opaque,
            inherit: self.inherit,
            rules: self.rules,
        }
    }

    /// Whether lookup continues with the next matching path for a method without a rule
    /// here. Without this, such a method is denied.
    #[must_use]
    pub fn fallback_inherit(self, inherit: bool) -> (registration: Self)
        ensures
            registration@ == (Plan { gap: gap_of(inherit), ..self@ }),
    {
        PathRegistration { inherit, ..self }
    }

    /// Defines the rule for every method without one of its own.
    #[must_use]
    pub fn all(self, rule: R) -> (registration: Self)
        ensures
            registration@ == (Plan { rules: self@.rules.push((Methods::Any, rule)), ..self@ }),
    {
        self.with_rule(MethodMatch::Any, rule)
    }

    /// Defines the rule for one method.
    #[must_use]
    pub fn method(self, method: http::Method, rule: R) -> (registration: Self)
        ensures
            registration@ == (Plan {
                rules: self@.rules.push((Methods::OneOf(seq![method]), rule)),
                ..self@
            }),
    {
        let mut methods: Vec<http::Method> = Vec::new();
        methods.push(method);
        assert(methods@ =~= seq![method]);
        self.with_rule(MethodMatch::OneOf(methods), rule)
    }

    /// Defines one rule for several methods, under one identity. An empty list is
    /// rejected when building.
    #[must_use]
    pub fn methods(self, methods: Vec<http::Method>, rule: R) -> (registration: Self)
        ensures
            registration@ == (Plan {
                rules: self@.rules.push((Methods::OneOf(methods@), rule)),
                ..self@
            }),
    {
        self.with_rule(MethodMatch::OneOf(methods), rule)
    }

    fn with_rule(self, methods: MethodMatch, rule: R) -> (registration: Self)
        ensures
            registration@ == (Plan {
                rules: self@.rules.push((methods_of(methods), rule)),
                ..self@
            }),
    {
        let ghost before = self.rules@;
        let ghost added = (methods, rule);
        let mut rules = self.rules;
        rules.push((methods, rule));
        assert(rules_of(rules@) =~= rules_of(before).push((methods_of(added.0), added.1)));
        PathRegistration {
            patterns: self.patterns,
            opaque: self.opaque,
            inherit: self.inherit,
            rules,
        }
    }
}

/// A registration in the form that a router is built from.
pub struct Definition<R> {
    pub patterns: Vec<String>,
    pub opaque: bool,
    pub gap: MethodGap,
    pub rules: Vec<(MethodMatch, R)>,
}

impl<R> View for Definition<R> {
    type V = Plan<R>;

    open spec fn view(&self) -> Plan<R> {
        Plan {
            patterns: texts(self.patterns@),
            opaque: self.opaque,
            gap: self.gap,
            rules: rules_of(self.rules@),
        }
    }
}

/// What can be registered.
pub trait Register<R>: View<V = Plan<R>> + Sized {
    /// The same registration, ready to build.
    fn define(self) -> (definition: Definition<R>)
        ensures
            definition@ == self@,
    ;
}

impl<R> Register<R> for Registration<R> {
    fn define(self) -> (definition: Definition<R>) {
        let ghost whole = self@;
        let mut rules: Vec<(MethodMatch, R)> = Vec::new();
        rules.push((self.method, self.rule));
        assert(rules_of(rules@) =~= whole.rules);
        Definition {
            patterns: self.patterns,
            opaque: self.opaque,
            gap: MethodGap::Default,
            rules,
        }
    }
}

impl<R> Register<R> for PathRegistration<R> {
    fn define(self) -> (definition: Definition<R>) {
        Definition {
            patterns: self.patterns,
            opaque: self.opaque,
            gap: if self.inherit {
                MethodGap::Inherit
            } else {
                MethodGap::Deny
            },
            rules: self.rules,
        }
    }
}

impl<R> Register<R> for Definition<R> {
    fn define(self) -> (definition: Definition<R>) {
        self
    }
}

/// What some registrations say.
pub open spec fn plans_of<R, G: Register<R>>(registrations: Seq<G>) -> Seq<Plan<R>> {
    registrations.map_values(|registration: G| registration@)
}

} // verus!
