//! Dependency constraint: parse strings like "ripgrep >= 13", "helix = 24.03".

use std::str::FromStr;

use vstd::prelude::*;
use vstd::string::*;

use crate::package_name;
use crate::package_name::PackageName;
use crate::text;
use crate::text::Text;
use crate::version;
use crate::version::Version;
use crate::views;

verus! {

/// A single dependency constraint: package name, operator, version.
#[derive(Debug, Eq, PartialEq)]
pub struct DepConstraint {
    /// Package name.
    pub name: PackageName,
    /// Comparison operator.
    pub op: DepOp,
    /// Version to compare against.
    pub version: Version,
}

/// Comparison operator for dependency constraints.
#[derive(Clone, Copy, Debug, Eq, PartialEq, Structural)]
pub enum DepOp {
    /// Exact match: `= 24.03`
    Eq,
    /// Greater or equal: `>= 13`
    Ge,
    /// Less or equal: `<= 2.0`
    Le,
    /// Strictly greater: `> 1`
    Gt,
    /// Strictly less: `< 2`
    Lt,
}

/// What a [`DepConstraint`] holds.
pub struct DepConstraintView {
    pub name: Text,
    pub op: DepOp,
    pub version: Text,
}

impl DeepView for DepConstraint {
    type V = DepConstraintView;

    open spec fn deep_view(&self) -> DepConstraintView {
        DepConstraintView { name: self.name@, op: self.op, version: self.version@ }
    }
}

impl View for DepConstraint {
    type V = DepConstraintView;

    open spec fn view(&self) -> DepConstraintView {
        self.deep_view()
    }
}

impl Clone for DepConstraint {
    fn clone(&self) -> (r: Self)
        ensures
            r@ == self@,
    {
        DepConstraint { name: self.name.clone(), op: self.op, version: self.version.clone() }
    }
}

/// Error when dependency constraint string is invalid.
#[derive(Clone, Debug, Eq, PartialEq)]
pub enum InvalidDepConstraint {
    Empty,
    MissingOperator { value: String },
    InvalidName(String),
    InvalidVersion,
}

/// What an [`InvalidDepConstraint`] holds.
pub enum InvalidDepConstraintView {
    Empty,
    MissingOperator { value: Text },
    InvalidName(Text),
    InvalidVersion,
}

impl DeepView for InvalidDepConstraint {
    type V = InvalidDepConstraintView;

    open spec fn deep_view(&self) -> InvalidDepConstraintView {
        match self {
            InvalidDepConstraint::Empty => InvalidDepConstraintView::Empty,
            InvalidDepConstraint::MissingOperator { value } =>
                InvalidDepConstraintView::MissingOperator { value: value@ },
            InvalidDepConstraint::InvalidName(name) => InvalidDepConstraintView::InvalidName(name@),
            InvalidDepConstraint::InvalidVersion => InvalidDepConstraintView::InvalidVersion,
        }
    }
}

impl View for InvalidDepConstraint {
    type V = InvalidDepConstraintView;

    open spec fn view(&self) -> InvalidDepConstraintView {
        self.deep_view()
    }
}

impl InvalidDepConstraint {
    /// The error in words.
    pub fn to_string(&self) -> (r: String)
        ensures
            r@ == invalid_text(self@),
    {
        match self {
            InvalidDepConstraint::Empty => "empty dependency constraint".to_owned(),
            InvalidDepConstraint::MissingOperator { value } =>
                "dependency constraint missing operator: ".to_owned().concat(
                text::to_quoted(value.as_str()).as_str(),
            ),
            InvalidDepConstraint::InvalidName(name) =>
                "invalid package name in constraint: ".to_owned().concat(
                text::to_quoted(name.as_str()).as_str(),
            ),
            InvalidDepConstraint::InvalidVersion =>
                "invalid version in dependency constraint".to_owned(),
        }
    }
}

/// The words for an [`InvalidDepConstraint`].
pub open spec fn invalid_text(e: InvalidDepConstraintView) -> Text {
    match e {
        InvalidDepConstraintView::Empty => "empty dependency constraint"@,
        InvalidDepConstraintView::MissingOperator { value } =>
            "dependency constraint missing operator: "@ + text::quoted(value),
        InvalidDepConstraintView::InvalidName(name) => "invalid package name in constraint: "@
            + text::quoted(name),
        InvalidDepConstraintView::InvalidVersion => "invalid version in dependency constraint"@,
    }
}

/// Whether version `v` stands in relation `op` to version `bound`.
pub open spec fn op_holds(op: DepOp, v: Text, bound: Text) -> bool {
    match op {
        DepOp::Eq => version::version_eq(v, bound),
        DepOp::Ge => version::version_le(bound, v),
        DepOp::Le => version::version_le(v, bound),
        DepOp::Gt => version::version_lt(bound, v),
        DepOp::Lt => version::version_lt(v, bound),
    }
}

/// Whether version `v` meets the constraint `c`.
pub open spec fn satisfied(c: DepConstraintView, v: Text) -> bool {
    op_holds(c.op, v, c.version)
}

/// The operator as it is written.
pub open spec fn op_text(op: DepOp) -> Text {
    match op {
        DepOp::Eq => "="@,
        DepOp::Ge => ">="@,
        DepOp::Le => "<="@,
        DepOp::Gt => ">"@,
        DepOp::Lt => "<"@,
    }
}

/// The constraint as it is written.
pub open spec fn constraint_text(c: DepConstraintView) -> Text {
    c.name + " "@ + op_text(c.op) + " "@ + c.version
}

/// The operator in `s` with what stands before and after it. Operators stand between spaces;
/// they are looked for in the order `>=`, `<=`, `=`, `>`, `<`, each at its first occurrence.
pub open spec fn split_operator(s: Text) -> Option<(Text, DepOp, Text)> {
    if let Some((a, b)) = text::split_once(s, " >= "@) {
        Some((a, DepOp::Ge, b))
    } else if let Some((a, b)) = text::split_once(s, " <= "@) {
        Some((a, DepOp::Le, b))
    } else if let Some((a, b)) = text::split_once(s, " = "@) {
        Some((a, DepOp::Eq, b))
    } else if let Some((a, b)) = text::split_once(s, " > "@) {
        Some((a, DepOp::Gt, b))
    } else if let Some((a, b)) = text::split_once(s, " < "@) {
        Some((a, DepOp::Lt, b))
    } else {
        None
    }
}

/// The constraint that `s` writes, or what is wrong with it.
pub open spec fn parsed(s: Text) -> Result<DepConstraintView, InvalidDepConstraintView> {
    let t = text::trimmed(s);
    if t.len() == 0 {
        Err(InvalidDepConstraintView::Empty)
    } else {
        match split_operator(t) {
            None => Err(InvalidDepConstraintView::MissingOperator { value: t }),
            Some((a, op, b)) => {
                let name = text::trimmed(a);
                let version = text::trimmed(b);
                if !package_name::valid_name(name) {
                    Err(InvalidDepConstraintView::InvalidName(name))
                } else if !version::valid_version(version) {
                    Err(InvalidDepConstraintView::InvalidVersion)
                } else {
                    Ok(DepConstraintView { name, op, version })
                }
            },
        }
    }
}

impl DepConstraint {
    /// Returns true if the given version satisfies this constraint.
    pub fn satisfies(&self, version: &Version) -> (r: bool)
        ensures
            r == satisfied(self@, version@),
    {
        proof {
            version::lemma_version_trichotomy(version@, self.version@);
        }
        match self.op {
            DepOp::Eq => version.ranks_with(&self.version),
            DepOp::Ge => !version.precedes(&self.version),
            DepOp::Le => !self.version.precedes(version),
            DepOp::Gt => self.version.precedes(version),
            DepOp::Lt => version.precedes(&self.version),
        }
    }

    /// Parses a constraint string like `"ripgrep >= 13"` or `"helix = 24.03"`.
    pub fn parse(s: &str) -> (r: Result<Self, InvalidDepConstraint>)
        ensures
            views::result_view(r) == parsed(s@),
    {
        let s = text::trim(s);
        if s.is_empty() {
            return Err(InvalidDepConstraint::Empty);
        }
        let (name_part, op, version_part) = match parse_op(s) {
            Ok(parts) => parts,
            Err(e) => {
                return Err(e);
            },
        };
        let name = match PackageName::new(text::trim(name_part.as_str())) {
            Ok(name) => name,
            Err(e) => {
                return Err(InvalidDepConstraint::InvalidName(e.value));
            },
        };
        let version = match Version::new(text::trim(version_part.as_str())) {
            Ok(version) => version,
            Err(_) => {
                return Err(InvalidDepConstraint::InvalidVersion);
            },
        };
        Ok(DepConstraint { name, op, version })
    }

    /// The constraint as it is written: name, operator, version.
    pub fn to_string(&self) -> (r: String)
        ensures
            r@ == constraint_text(self@),
    {
        let op = match self.op {
            DepOp::Eq => "=",
            DepOp::Ge => ">=",
            DepOp::Le => "<=",
            DepOp::Gt => ">",
            DepOp::Lt => "<",
        };
        self.name.to_string().concat(" ").concat(op).concat(" ").concat(self.version.as_str())
    }
}

/// Finds the operator in `s`.
fn parse_op(s: &str) -> (r: Result<(String, DepOp, String), InvalidDepConstraint>)
    ensures
        match r {
            Ok((a, op, b)) => split_operator(s@) == Some((a@, op, b@)),
            Err(e) => split_operator(s@) is None && e@ == (
            InvalidDepConstraintView::MissingOperator { value: s@ }),
        },
{
    if let Some((a, b)) = text::split_at_first(s, " >= ") {
        return Ok((a, DepOp::Ge, b));
    }
    if let Some((a, b)) = text::split_at_first(s, " <= ") {
        return Ok((a, DepOp::Le, b));
    }
    if let Some((a, b)) = text::split_at_first(s, " = ") {
        return Ok((a, DepOp::Eq, b));
    }
    if let Some((a, b)) = text::split_at_first(s, " > ") {
        return Ok((a, DepOp::Gt, b));
    }
    if let Some((a, b)) = text::split_at_first(s, " < ") {
        return Ok((a, DepOp::Lt, b));
    }
    Err(InvalidDepConstraint::MissingOperator { value: s.to_owned() })
}

impl FromStr for DepConstraint {
    type Err = InvalidDepConstraint;

    fn from_str(s: &str) -> (r: Result<Self, Self::Err>)
        ensures
            views::result_view(r) == parsed(s@),
    {
        Self::parse(s)
    }
}

/// The operator between spaces.
pub open spec fn spaced(op: DepOp) -> Text {
    match op {
        DepOp::Eq => " = "@,
        DepOp::Ge => " >= "@,
        DepOp::Le => " <= "@,
        DepOp::Gt => " > "@,
        DepOp::Lt => " < "@,
    }
}

/// Whether `a` is looked for before `b`.
pub open spec fn tried_before(a: DepOp, b: DepOp) -> bool {
    match b {
        DepOp::Ge => false,
        DepOp::Le => a == DepOp::Ge,
        DepOp::Eq => a == DepOp::Ge || a == DepOp::Le,
        DepOp::Gt => a == DepOp::Ge || a == DepOp::Le || a == DepOp::Eq,
        DepOp::Lt => a != DepOp::Lt,
    }
}

/// Whether no operator that is looked for before that of the constraint stands, between spaces, in
/// what follows the name.
pub open spec fn unambiguous(c: DepConstraintView) -> bool {
    forall|op: DepOp| #[trigger]
        tried_before(op, c.op) ==> !text::contains_text(spaced(c.op) + c.version, spaced(op))
}

/// What stands in a text after a name stands in what follows the name, if it begins with a space.
proof fn lemma_after_name(name: Text, rest: Text, pat: Text)
    requires
        package_name::valid_name(name),
        pat.len() > 0,
        pat[0] == ' ',
    ensures
        text::contains_text(name + rest, pat) == text::contains_text(rest, pat),
        text::contains_text(rest, pat) && text::occurs_at(rest, pat, 0) ==> text::find(
            name + rest,
            pat,
        ) == Some(name.len()),
{
    let s = name + rest;
    text::lemma_find(s, pat);
    assert forall|i: int| text::occurs_at(s, pat, i) implies i >= name.len()
        && #[trigger] text::occurs_at(rest, pat, i - name.len()) by {
        assert(s.subrange(i, i + pat.len())[0] == s[i]);
        if i < name.len() {
            assert(package_name::is_name_char(name[i]));
            assert(s[i] == name[i]);
        }
        assert(rest.subrange(i - name.len(), i - name.len() + pat.len()) =~= s.subrange(
            i,
            i + pat.len(),
        ));
    }
    assert forall|i: int| text::occurs_at(rest, pat, i) implies #[trigger] text::occurs_at(
        s,
        pat,
        i + name.len(),
    ) by {
        assert(rest.subrange(i, i + pat.len()) =~= s.subrange(
            i + name.len(),
            i + name.len() + pat.len(),
        ));
    }
    if text::contains_text(s, pat) {
        let i = choose|i: int| text::occurs_at(s, pat, i);
        assert(text::occurs_at(rest, pat, i - name.len()));
    }
    if text::contains_text(rest, pat) {
        let i = choose|i: int| text::occurs_at(rest, pat, i);
        assert(text::occurs_at(s, pat, i + name.len()));
    }
    if text::occurs_at(rest, pat, 0) {
        assert(text::occurs_at(s, pat, 0int + name.len()));
    }
}

proof fn lemma_spaced(op: DepOp)
    ensures
        spaced(op) == " "@ + op_text(op) + " "@,
        spaced(op).len() > 0,
        spaced(op)[0] == ' ',
{
    reveal_strlit(" ");
    reveal_strlit("=");
    reveal_strlit(">=");
    reveal_strlit("<=");
    reveal_strlit(">");
    reveal_strlit("<");
    reveal_strlit(" = ");
    reveal_strlit(" >= ");
    reveal_strlit(" <= ");
    reveal_strlit(" > ");
    reveal_strlit(" < ");
    assert(spaced(op) =~= " "@ + op_text(op) + " "@);
}

/// Trimming leaves a name as it is.
proof fn lemma_name_trimmed(name: Text)
    requires
        package_name::valid_name(name),
    ensures
        text::trimmed(name) == name,
{
    assert(package_name::is_name_char(name[0]));
    assert(package_name::is_name_char(name[name.len() - 1]));
    assert(name.last() == name[name.len() - 1]);
}

/// Reading a constraint back from its text gives the same constraint, unless white space stands at
/// an end of the version or another operator stands in it.
pub proof fn lemma_constraint_roundtrip(c: DepConstraintView)
    requires
        package_name::valid_name(c.name),
        version::valid_version(c.version),
        text::trimmed(c.version) == c.version,
        unambiguous(c),
    ensures
        parsed(constraint_text(c)) == Ok::<DepConstraintView, InvalidDepConstraintView>(c),
{
    let rest = spaced(c.op) + c.version;
    let s = c.name + rest;
    lemma_spaced(c.op);
    assert(constraint_text(c) =~= s);
    lemma_name_trimmed(c.name);
    lemma_ends_not_blank(c.version);
    assert(s[0] == c.name[0] && s.last() == c.version.last());
    assert(package_name::is_name_char(c.name[0]));
    assert(text::trimmed(s) == s);
    lemma_spaced(DepOp::Ge);
    lemma_spaced(DepOp::Le);
    lemma_spaced(DepOp::Eq);
    lemma_spaced(DepOp::Gt);
    lemma_spaced(DepOp::Lt);
    lemma_after_name(c.name, rest, spaced(DepOp::Ge));
    lemma_after_name(c.name, rest, spaced(DepOp::Le));
    lemma_after_name(c.name, rest, spaced(DepOp::Eq));
    lemma_after_name(c.name, rest, spaced(DepOp::Gt));
    lemma_after_name(c.name, rest, spaced(DepOp::Lt));
    text::lemma_find(s, spaced(DepOp::Ge));
    text::lemma_find(s, spaced(DepOp::Le));
    text::lemma_find(s, spaced(DepOp::Eq));
    text::lemma_find(s, spaced(DepOp::Gt));
    text::lemma_find(s, spaced(DepOp::Lt));
    assert(rest.subrange(0, spaced(c.op).len() as int) =~= spaced(c.op));
    assert(text::occurs_at(rest, spaced(c.op), 0));
    assert(tried_before(DepOp::Ge, c.op) || c.op == DepOp::Ge);
    assert(tried_before(DepOp::Le, c.op) || c.op == DepOp::Ge || c.op == DepOp::Le);
    assert(tried_before(DepOp::Eq, c.op) || c.op != DepOp::Gt && c.op != DepOp::Lt);
    assert(tried_before(DepOp::Gt, c.op) || c.op != DepOp::Lt);
    assert(s.take(c.name.len() as int) =~= c.name);
    assert(s.skip((c.name.len() + spaced(c.op).len()) as int) =~= c.version);
    assert(text::split_once(s, spaced(c.op)) == Some((c.name, c.version)));
    assert(split_operator(s) == Some((c.name, c.op, c.version)));
}

/// Text that trimming leaves as it is neither begins nor ends with white space.
proof fn lemma_ends_not_blank(s: Text)
    requires
        text::trimmed(s) == s,
        s.len() > 0,
    ensures
        !text::is_space(s[0]),
        !text::is_space(s.last()),
{
    lemma_trimmed_start_shorter(s);
    lemma_trimmed_end_shorter(text::trimmed_start(s));
    if text::is_space(s[0]) {
        lemma_trimmed_start_shorter(s.drop_first());
    }
    if text::is_space(s.last()) {
        assert(text::trimmed_start(s).len() == s.len());
        assert(text::trimmed_start(s) == s) by {
            if text::is_space(s[0]) {
                lemma_trimmed_start_shorter(s.drop_first());
            }
        }
        lemma_trimmed_end_shorter(s.drop_last());
    }
}

proof fn lemma_trimmed_start_shorter(s: Text)
    ensures
        text::trimmed_start(s).len() <= s.len(),
    decreases s.len(),
{
    if s.len() > 0 && text::is_space(s[0]) {
        lemma_trimmed_start_shorter(s.drop_first());
    }
}

proof fn lemma_trimmed_end_shorter(s: Text)
    ensures
        text::trimmed_end(s).len() <= s.len(),
    decreases s.len(),
{
    if s.len() > 0 && text::is_space(s.last()) {
        lemma_trimmed_end_shorter(s.drop_last());
    }
}

/// Reading a constraint back from its text, with any white space around it, gives the same
/// constraint, where the version holds no white space.
pub proof fn lemma_plain_constraint_roundtrip(c: DepConstraintView, before: Text, after: Text)
    requires
        package_name::valid_name(c.name),
        c.version.len() > 0,
        forall|i: int| 0 <= i < c.version.len() ==> !text::is_space(#[trigger] c.version[i]),
        text::all_space(before),
        text::all_space(after),
    ensures
        version::valid_version(c.version),
        parsed(constraint_text(c)) == Ok::<DepConstraintView, InvalidDepConstraintView>(c),
        parsed(before + constraint_text(c) + after) == Ok::<
            DepConstraintView,
            InvalidDepConstraintView,
        >(c),
{
    let s = constraint_text(c);
    assert(c.version.last() == c.version[c.version.len() - 1]);
    assert(text::trimmed(c.version) == c.version);
    assert forall|op: DepOp| #[trigger] tried_before(op, c.op) implies !text::contains_text(
        spaced(c.op) + c.version,
        spaced(op),
    ) by {
        lemma_only_operator(c, op);
    }
    lemma_constraint_roundtrip(c);
    assert(package_name::is_name_char(c.name[0]));
    assert(s[0] == c.name[0]);
    assert(s.last() == c.version.last());
    text::lemma_trimmed_padded(before, s, after);
    text::lemma_trimmed_padded(Seq::empty(), s, Seq::empty());
    assert(Seq::<char>::empty() + s + Seq::<char>::empty() =~= s);
}

/// In front of a version without white space, no other operator stands between spaces.
proof fn lemma_only_operator(c: DepConstraintView, op: DepOp)
    requires
        forall|i: int| 0 <= i < c.version.len() ==> !text::is_space(#[trigger] c.version[i]),
        op != c.op,
    ensures
        !text::contains_text(spaced(c.op) + c.version, spaced(op)),
{
    let rest = spaced(c.op) + c.version;
    let pat = spaced(op);
    let own = spaced(c.op);
    reveal_strlit(" = ");
    reveal_strlit(" >= ");
    reveal_strlit(" <= ");
    reveal_strlit(" > ");
    reveal_strlit(" < ");
    if text::contains_text(rest, pat) {
        let i = choose|i: int| text::occurs_at(rest, pat, i);
        let part = rest.subrange(i, i + pat.len());
        let n = pat.len() - 1;
        assert(part == pat);
        assert(pat[0] == ' ' && pat[n] == ' ');
        assert(part[0] == rest[i] && part[n] == rest[i + n]);
        assert(text::is_space(' '));
        if i + n >= own.len() {
            assert(rest[i + n] == c.version[i + n - own.len()]);
        } else {
            assert(rest[i + n] == own[i + n]);
            assert(rest[i] == own[i]);
            assert(i == 0 && i + n == own.len() - 1);
            assert(part[1] == rest[1] && rest[1] == own[1]);
            assert(pat[1] == own[1]);
        }
    }
}

} // verus!
