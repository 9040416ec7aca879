//! The configuration aggregate: the snippet tree with its resolver, the
//! session-wide `SyslogNgConfiguration`, and the cursor-context
//! classification.

use vstd::prelude::*;
use vstd::string::StringExecFns;

use crate::language_types::GlobalOption;
use crate::language_types::Object;
use crate::language_types::ObjectKind;
use crate::language_types::ObjectV;
use crate::language_types::VersionAnnotation;
use crate::parser::Annotation;
use crate::protocol::Diagnostic;
use crate::protocol::DiagnosticV;
use crate::protocol::Position;
use crate::protocol::Range;
use crate::protocol::Severity;
use crate::protocol::sat_u32;
use crate::protocol::sat_u32_exec;
use crate::text::CharClass;
use crate::text::contains_seq;
use crate::text::contains_str;
use crate::text::lex_le;
use crate::text::run_len;
use crate::text::scan;
use crate::text::str_lex_le;
use crate::text::substr;

verus! {

/// The semantic location class of a cursor position: outside every object,
/// or inside an object of one of the seven kinds.
#[derive(Clone, Copy, PartialEq, Eq, Structural, Debug)]
pub enum Context {
    Root,
    Source,
    Destination,
    Log,
    Filter,
    Parser,
    RewriteRule,
    Template,
}

/// The context that corresponds to each object kind.
pub open spec fn context_of_kind(k: ObjectKind) -> Context {
    match k {
        ObjectKind::Source => Context::Source,
        ObjectKind::Destination => Context::Destination,
        ObjectKind::Log => Context::Log,
        ObjectKind::Filter => Context::Filter,
        ObjectKind::Parser => Context::Parser,
        ObjectKind::RewriteRule => Context::RewriteRule,
        ObjectKind::Template => Context::Template,
    }
}

impl Context {
    /// The context of a cursor that sits inside an object of kind `kind`.
    pub fn from_kind(kind: &ObjectKind) -> (r: Context)
        ensures
            r == context_of_kind(*kind),
    {
        match kind {
            ObjectKind::Source => Context::Source,
            ObjectKind::Destination => Context::Destination,
            ObjectKind::Log => Context::Log,
            ObjectKind::Filter => Context::Filter,
            ObjectKind::Parser => Context::Parser,
            ObjectKind::RewriteRule => Context::RewriteRule,
            ObjectKind::Template => Context::Template,
        }
    }
}

/// A text fragment pulled in by a snippet directive, with the fragments it
/// itself pulls in: a tree.
#[derive(Debug)]
pub struct Snippet {
    /// The fragment's own text.
    pub content: String,
    /// Where the directive that pulled this fragment in stands.
    pub directive_range: Range,
    /// The identity of the fragment's own document.
    pub snippet_uri: String,
    /// Faults found while resolving this fragment.
    pub diagnostics: Vec<Diagnostic>,
    /// The fragments this one pulls in, in discovery order.
    pub children: Vec<Snippet>,
    /// The merged content, once resolved.
    pub resolved_content: String,
    /// How deep in the tree this fragment stands.
    pub depth: u8,
}

/// The spec-level content of a `Snippet`.
pub struct SnippetV {
    pub content: Seq<char>,
    pub directive_range: Range,
    pub uri: Seq<char>,
    pub diagnostics: Seq<DiagnosticV>,
    pub children: Seq<SnippetV>,
    pub resolved: Seq<char>,
    pub depth: u8,
}

/// The spec-level content of a snippet tree.
pub open spec fn snippet_view(s: Snippet) -> SnippetV
    decreases s, 0int,
{
    SnippetV {
        content: s.content@,
        directive_range: s.directive_range,
        uri: s.snippet_uri@,
        diagnostics: s.diagnostics@.map_values(|d: Diagnostic| d@),
        children: snippet_children_view(s.children, s.children@.len() as int),
        resolved: s.resolved_content@,
        depth: s.depth,
    }
}

/// The views of the first `n` children.
pub open spec fn snippet_children_view(l: Vec<Snippet>, n: int) -> Seq<SnippetV>
    decreases l, n,
{
    if n <= 0 || n > l@.len() {
        Seq::empty()
    } else {
        snippet_children_view(l, n - 1).push(snippet_view(l@[n - 1]))
    }
}

impl View for Snippet {
    type V = SnippetV;

    open spec fn view(&self) -> SnippetV {
        snippet_view(*self)
    }
}

/// `snippet_children_view` is the element-wise view of the vector.
pub proof fn lemma_snippet_children_view(l: Vec<Snippet>, n: int)
    requires
        0 <= n <= l@.len(),
    ensures
        snippet_children_view(l, n).len() == n,
        forall|i: int| 0 <= i < n ==> snippet_children_view(l, n)[i] == snippet_view(l@[i]),
    decreases n,
{
    if n > 0 {
        lemma_snippet_children_view(l, n - 1);
    }
}

/// The root aggregate for one editing session.
#[derive(Debug)]
pub struct SyslogNgConfiguration {
    configuration: String,
    version: VersionAnnotation,
    imports: Vec<String>,
    snippets: Vec<Snippet>,
    workspace_folder: Option<String>,
    is_valid: bool,
    global_options: Vec<GlobalOption>,
    objects: Vec<Object>,
    diagnostics: Vec<(String, Diagnostic)>,
}

/// The spec-level content of a `SyslogNgConfiguration`.
pub struct ConfigV {
    /// The raw text of the main document.
    pub configuration: Seq<char>,
    /// The declared version; zero until parsed.
    pub version: VersionAnnotation,
    /// The snippet-directive patterns encountered, in order.
    pub imports: Seq<Seq<char>>,
    /// The parsed snippets, keyed by their document identity.
    pub snippets: Seq<SnippetV>,
    pub workspace_folder: Option<Seq<char>>,
    pub is_valid: bool,
    pub global_options: Seq<GlobalOption>,
    /// The parsed top-level objects, in order.
    pub objects: Seq<ObjectV>,
    /// Accumulated diagnostics, each with its document identity.
    pub diagnostics: Seq<(Seq<char>, DiagnosticV)>,
}

impl View for SyslogNgConfiguration {
    type V = ConfigV;

    closed spec fn view(&self) -> ConfigV {
        ConfigV {
            configuration: self.configuration@,
            version: self.version,
            imports: self.imports@.map_values(|s: String| s@),
            snippets: self.snippets@.map_values(|s: Snippet| s@),
            workspace_folder: match self.workspace_folder {
                Some(ref u) => Some(u@),
                None => None,
            },
            is_valid: self.is_valid,
            global_options: self.global_options@,
            objects: self.objects@.map_values(|o: Object| o@),
            diagnostics: self.diagnostics@.map_values(|d: (String, Diagnostic)| (d.0@, d.1@)),
        }
    }
}

impl SyslogNgConfiguration {
    /// An empty configuration: no text, a zero version, and nothing parsed.
    pub fn init_new() -> (r: SyslogNgConfiguration)
        ensures
            r@.configuration == Seq::<char>::empty(),
            r@.version == (VersionAnnotation { major_version: 0, minor_version: 0 }),
            r@.imports == Seq::<Seq<char>>::empty(),
            r@.snippets == Seq::<SnippetV>::empty(),
            r@.workspace_folder is None,
            !r@.is_valid,
            r@.global_options == Seq::<GlobalOption>::empty(),
            r@.objects == Seq::<ObjectV>::empty(),
            r@.diagnostics == Seq::<(Seq<char>, DiagnosticV)>::empty(),
    {
        let r = SyslogNgConfiguration {
            configuration: String::new(),
            version: VersionAnnotation { major_version: 0, minor_version: 0 },
            imports: Vec::new(),
            snippets: Vec::new(),
            workspace_folder: None,
            is_valid: false,
            global_options: Vec::new(),
            objects: Vec::new(),
            diagnostics: Vec::new(),
        };
        proof {
            assert(r@.imports =~= Seq::<Seq<char>>::empty());
            assert(r@.snippets =~= Seq::<SnippetV>::empty());
            assert(r@.objects =~= Seq::<ObjectV>::empty());
            assert(r@.diagnostics =~= Seq::<(Seq<char>, DiagnosticV)>::empty());
        }
        r
    }

    /// A fresh, empty configuration for a new session. The transport layer
    /// owns it behind its session lock.
    pub fn new() -> (r: SyslogNgConfiguration)
        ensures
            r@.configuration == Seq::<char>::empty(),
            r@.version == (VersionAnnotation { major_version: 0, minor_version: 0 }),
            r@.imports == Seq::<Seq<char>>::empty(),
            r@.objects == Seq::<ObjectV>::empty(),
            r@.diagnostics == Seq::<(Seq<char>, DiagnosticV)>::empty(),
    {
        SyslogNgConfiguration::init_new()
    }

    /// Apply a parsed annotation: a version annotation replaces the
    /// declared version, a snippet directive is recorded in order.
    pub fn add_annotation(&mut self, annotation: Annotation)
        ensures
            final(self)@ == match annotation@ {
                crate::parser::AnnotationV::VA(v) => ConfigV { version: v, ..old(self)@ },
                crate::parser::AnnotationV::IA(p) => ConfigV {
                    imports: old(self)@.imports.push(p),
                    ..old(self)@
                },
            },
    {
        let ghost before = self@;
        match annotation {
            Annotation::VA(version) => {
                self.version = version;
            },
            Annotation::IA(pattern) => {
                let ghost pv = pattern@;
                self.imports.push(pattern);
                proof {
                    assert(self@.imports =~= before.imports.push(pv));
                }
            },
        }
    }

    /// Append a parsed object.
    pub fn add_object(&mut self, obj: Object)
        ensures
            final(self)@ == (ConfigV { objects: old(self)@.objects.push(obj@), ..old(self)@ }),
    {
        let ghost before = self@;
        let ghost ov = obj@;
        self.objects.push(obj);
        proof {
            assert(self@.objects =~= before.objects.push(ov));
        }
    }

    /// Record a diagnostic against the main document.
    pub fn add_diagnostics(&mut self, uri: String, diag: Diagnostic)
        ensures
            final(self)@ == (ConfigV {
                diagnostics: old(self)@.diagnostics.push((uri@, diag@)),
                ..old(self)@
            }),
    {
        let ghost before = self@;
        let ghost dv = (uri@, diag@);
        self.diagnostics.push((uri, diag));
        proof {
            assert(self@.diagnostics =~= before.diagnostics.push(dv));
        }
    }

    /// Remember the workspace folder the editor opened.
    pub fn set_workspace_folder(&mut self, url: &str)
        ensures
            final(self)@ == (ConfigV { workspace_folder: Some(url@), ..old(self)@ }),
    {
        self.workspace_folder = Some(String::from_str(url));
    }

    pub fn get_global_options(&self) -> (r: &Vec<GlobalOption>)
        ensures
            r@ == self@.global_options,
    {
        &self.global_options
    }

    pub fn get_objects(&self) -> (r: &Vec<Object>)
        ensures
            r@.map_values(|o: Object| o@) == self@.objects,
    {
        &self.objects
    }

    /// The accumulated diagnostics, each with its document identity.
    pub fn get_diagnostics(&self) -> (r: &Vec<(String, Diagnostic)>)
        ensures
            r@.map_values(|d: (String, Diagnostic)| (d.0@, d.1@)) == self@.diagnostics,
    {
        &self.diagnostics
    }

    /// The objects of one kind, in order.
    pub fn get_objects_by_kind(&self, kind: &ObjectKind) -> (r: Vec<&Object>)
        ensures
            r@.map_values(|o: &Object| o@) == self@.objects.filter(
                |o: ObjectV| o.kind == *kind,
            ),
    {
        let mut result: Vec<&Object> = Vec::new();
        let n = self.objects.len();
        let mut i: usize = 0;
        proof {
            reveal(Seq::filter);
            assert(self@.objects.subrange(0, 0) =~= Seq::<ObjectV>::empty());
            assert(Seq::<ObjectV>::empty().filter(|o: ObjectV| o.kind == *kind)
                =~= Seq::<ObjectV>::empty());
            assert(result@.map_values(|o: &Object| o@) =~= Seq::<ObjectV>::empty());
        }
        while i < n
            invariant
                n == self.objects.len(),
                0 <= i <= n,
                self@.objects.len() == n,
                result@.map_values(|o: &Object| o@) == self@.objects.subrange(0, i as int).filter(
                    |o: ObjectV| o.kind == *kind,
                ),
            decreases n - i,
        {
            let ghost sofar = self@.objects.subrange(0, i as int);
            let o = &self.objects[i];
            proof {
                reveal(Seq::filter);
                assert(self@.objects.subrange(0, i + 1).drop_last() =~= sofar);
                assert(self@.objects.subrange(0, i + 1).last() == self@.objects[i as int]);
                assert(o@ == self@.objects[i as int]);
            }
            if o.get_kind() == kind {
                let ghost before = result@.map_values(|x: &Object| x@);
                result.push(o);
                proof {
                    reveal(Seq::filter);
                    assert(result@.map_values(|x: &Object| x@) =~= before.push(o@));
                    assert(self@.objects.subrange(0, i + 1).filter(|x: ObjectV| x.kind == *kind)
                        =~= before.push(o@));
                }
            }
            i += 1;
        }
        proof {
            assert(self@.objects.subrange(0, n as int) =~= self@.objects);
        }
        result
    }
}

/// The views of a row of snippets.
pub open spec fn views_of(l: Seq<Snippet>) -> Seq<SnippetV> {
    l.map_values(|c: Snippet| snippet_view(c))
}

/// The children part of a snippet's view is the element-wise view of its
/// child vector.
pub proof fn lemma_views_of(l: Vec<Snippet>)
    ensures
        snippet_children_view(l, l@.len() as int) == views_of(l@),
{
    lemma_snippet_children_view(l, l@.len() as int);
    assert(snippet_children_view(l, l@.len() as int) =~= views_of(l@));
}

// ---------------------------------------------------------------------------
// Merging.
// ---------------------------------------------------------------------------
/// The merged text of a snippet tree: the children's merged texts in
/// order, then the snippet's own content.
pub open spec fn merged_of(s: SnippetV) -> Seq<char>
    decreases s,
{
    merged_children(s.children) + s.content
}

/// The concatenated merged texts of a row of snippets.
pub open spec fn merged_children(cs: Seq<SnippetV>) -> Seq<char>
    decreases cs,
{
    if cs.len() == 0 {
        Seq::empty()
    } else {
        merged_children(cs.drop_last()) + merged_of(cs.last())
    }
}

impl Snippet {
    /// The merged text of this snippet tree, child trees first and this
    /// snippet's own content last, as `merged_of` describes it.
    pub fn get_resolved_merged(&self) -> (r: String)
        ensures
            r@ == merged_of(self@),
        decreases *self,
    {
        let mut merged = String::new();
        let n = self.children.len();
        let mut i: usize = 0;
        proof {
            assert(views_of(self.children@.subrange(0, 0)) =~= Seq::<SnippetV>::empty());
        }
        while i < n
            invariant
                n == self.children.len(),
                0 <= i <= n,
                merged@ == merged_children(views_of(self.children@.subrange(0, i as int))),
            decreases n - i,
        {
            let piece = self.children[i].get_resolved_merged();
            merged.append(piece.as_str());
            proof {
                let pre = views_of(self.children@.subrange(0, i as int));
                let now = views_of(self.children@.subrange(0, i + 1));
                assert(now.drop_last() =~= pre);
                assert(now.last() == snippet_view(self.children@[i as int]));
            }
            i += 1;
        }
        merged.append(self.content.as_str());
        proof {
            lemma_views_of(self.children);
            assert(self.children@.subrange(0, n as int) =~= self.children@);
            assert(views_of(self.children@) =~= views_of(self.children@.subrange(0, n as int)));
        }
        merged
    }

    /// This snippet's document identity.
    pub fn get_snippet_uri(&self) -> (r: &str)
        ensures
            r@ == self@.uri,
    {
        self.snippet_uri.as_str()
    }
}

// ---------------------------------------------------------------------------
// Sorting children by document identity.
// ---------------------------------------------------------------------------
/// Insert a snippet before the first sibling whose identity is not
/// smaller.
pub open spec fn insert_sorted(cs: Seq<SnippetV>, x: SnippetV) -> Seq<SnippetV>
    decreases cs.len(),
{
    if cs.len() == 0 {
        seq![x]
    } else if lex_le(x.uri, cs.first().uri) {
        seq![x] + cs
    } else {
        seq![cs.first()] + insert_sorted(cs.drop_first(), x)
    }
}

/// Sort a row of snippets by the lexicographic order of their
/// identities, by repeated insertion.
pub open spec fn sort_by_uri(cs: Seq<SnippetV>) -> Seq<SnippetV>
    decreases cs.len(),
{
    if cs.len() == 0 {
        Seq::empty()
    } else {
        insert_sorted(sort_by_uri(cs.drop_last()), cs.last())
    }
}

/// Where the insertion lands: before the first not-smaller sibling.
proof fn lemma_insert_sorted_at(cs: Seq<SnippetV>, x: SnippetV, j: int)
    requires
        0 <= j <= cs.len(),
        forall|k: int| 0 <= k < j ==> !lex_le(x.uri, cs[k].uri),
        j < cs.len() ==> lex_le(x.uri, cs[j].uri),
    ensures
        insert_sorted(cs, x) == cs.take(j) + seq![x] + cs.skip(j),
    decreases cs.len(),
{
    if cs.len() == 0 {
        assert(insert_sorted(cs, x) =~= cs.take(j) + seq![x] + cs.skip(j));
    } else if j == 0 {
        assert(insert_sorted(cs, x) =~= cs.take(0) + seq![x] + cs.skip(0));
    } else {
        lemma_insert_sorted_at(cs.drop_first(), x, j - 1);
        assert(cs.drop_first().take(j - 1) =~= cs.take(j).drop_first());
        assert(cs.drop_first().skip(j - 1) =~= cs.skip(j));
        assert(insert_sorted(cs, x) =~= cs.take(j) + seq![x] + cs.skip(j));
    }
}

/// Insert a snippet into a row at its sorted place, as `insert_sorted`
/// describes it.
fn insert_child(out: &mut Vec<Snippet>, x: Snippet)
    ensures
        views_of(final(out)@) == insert_sorted(views_of(old(out)@), snippet_view(x)),
{
    let ghost oldv = views_of(out@);
    let ghost xv = snippet_view(x);
    let n = out.len();
    let mut j: usize = 0;
    while j < n && !str_lex_le(x.snippet_uri.as_str(), out[j].snippet_uri.as_str())
        invariant
            n == out.len(),
            0 <= j <= n,
            oldv == views_of(out@),
            oldv == views_of(old(out)@),
            xv == snippet_view(x),
            forall|k: int| 0 <= k < j ==> !lex_le(xv.uri, oldv[k].uri),
        decreases n - j,
    {
        j += 1;
    }
    proof {
        if j < n {
            assert(oldv[j as int].uri == snippet_view(out@[j as int]).uri);
        }
        lemma_insert_sorted_at(oldv, xv, j as int);
    }
    out.insert(j, x);
    proof {
        assert(views_of(out@) =~= oldv.take(j as int) + seq![xv] + oldv.skip(j as int));
    }
}

// ---------------------------------------------------------------------------
// Faults.
// ---------------------------------------------------------------------------
/// The diagnostic source this engine reports under.
pub open spec fn lsp_source() -> Seq<char> {
    "syslog-ng LSP server"@
}

/// The fixed ceiling on snippet nesting.
pub open spec fn depth_ceiling() -> int {
    15
}

/// The message of a depth fault; it cites the fixed ceiling.
pub open spec fn depth_message() -> Seq<char> {
    "Snippet depth limit (15) has been reached, diagnostics might be unreliable. Make sure snippet references are not circular"@
}

/// The message of a version-in-snippet fault.
pub open spec fn version_message() -> Seq<char> {
    "Snippets can not contain @version"@
}

/// A snippet's whole content as a range of lines.
pub open spec fn whole_range(s: SnippetV) -> Range {
    Range {
        start: Position { line: 0, character: 0 },
        end: Position {
            line: sat_u32(crate::parser::line_count(s.content) + 1),
            character: 0,
        },
    }
}

/// The first line of `s` from `pos` (line `idx`) that holds `pat`.
pub open spec fn pattern_line_from(s: Seq<char>, pat: Seq<char>, pos: int, idx: int) -> Option<int>
    decreases s.len() - pos,
    when 0 <= pos <= s.len()
    via pattern_line_from_decreases
{
    if pos >= s.len() {
        None
    } else {
        let ll = run_len(s, pos, CharClass::Line);
        let line = s.subrange(pos, pos + ll);
        let next: int = if pos + ll < s.len() {
            pos + ll + 1
        } else {
            s.len() as int
        };
        if contains_seq(line, pat) {
            Some(idx)
        } else {
            pattern_line_from(s, pat, next, idx + 1)
        }
    }
}

#[via_fn]
proof fn pattern_line_from_decreases(s: Seq<char>, pat: Seq<char>, pos: int, idx: int) {
    if 0 <= pos < s.len() {
        crate::text::lemma_run_len(s, pos, CharClass::Line);
    }
}

/// The one-line range of the first line holding `pat`, if any.
pub open spec fn pattern_range(s: Seq<char>, pat: Seq<char>) -> Option<Range> {
    match pattern_line_from(s, pat, 0, 0) {
        Some(i) => Some(
            Range {
                start: Position { line: sat_u32(i), character: 0 },
                end: Position { line: sat_u32(i + 1), character: 0 },
            },
        ),
        None => None,
    }
}

/// The depth fault of a snippet.
pub open spec fn depth_diag(s: SnippetV) -> DiagnosticV {
    DiagnosticV {
        range: whole_range(s),
        severity: Severity::Error,
        source: lsp_source(),
        message: depth_message(),
    }
}

/// The version-in-snippet fault of a snippet; its range points at the
/// offending line.
pub open spec fn version_diag(s: SnippetV) -> DiagnosticV {
    DiagnosticV {
        range: pattern_range(s.content, "@version"@)->Some_0,
        severity: Severity::Error,
        source: lsp_source(),
        message: version_message(),
    }
}

/// The fault a parent reports when resolving a child snippet failed: it
/// points at the directive that pulled the child in.
pub open spec fn child_fault_diag(c: SnippetV) -> DiagnosticV {
    DiagnosticV {
        range: c.directive_range,
        severity: Severity::Error,
        source: Seq::empty(),
        message: "Snippet "@ + c.uri + " has errors in it"@,
    }
}

/// The snippet's own fault, if it has one: too deep, or a version
/// annotation inside an imported fragment.
pub open spec fn check_fault(s: SnippetV, depth: u8) -> Option<DiagnosticV> {
    if depth > depth_ceiling() {
        Some(depth_diag(s))
    } else if pattern_line_from(s.content, "@version"@, 0, 0) is Some {
        Some(version_diag(s))
    } else {
        None
    }
}

impl Snippet {
    /// This snippet's whole content as a line range, as `whole_range`
    /// describes it.
    pub fn get_whole_content_range(&self) -> (r: Range)
        ensures
            r == whole_range(self@),
    {
        let lines = crate::parser::count_lines(self.content.as_str());
        let endl = if lines < usize::MAX {
            sat_u32_exec(lines + 1)
        } else {
            u32::MAX
        };
        Range::new(Position::new(0, 0), Position::new(endl, 0))
    }

    /// The one-line range of the first line of this snippet's content
    /// that holds `pattern`, as `pattern_range` describes it.
    pub fn get_range_by_pattern(&self, pattern: &str) -> (r: Option<Range>)
        ensures
            r == pattern_range(self@.content, pattern@),
    {
        let contents = self.content.as_str();
        let n = contents.unicode_len();
        let mut pos: usize = 0;
        let mut idx: usize = 0;
        while pos < n
            invariant
                0 <= pos <= n,
                n == self@.content.len(),
                contents@ == self@.content,
                idx <= pos,
                pattern_line_from(self@.content, pattern@, 0, 0) == pattern_line_from(
                    self@.content,
                    pattern@,
                    pos as int,
                    idx as int,
                ),
            decreases n - pos,
        {
            let ll_end = scan(contents, pos, CharClass::Line);
            let line = substr(contents, pos, ll_end);
            if contains_str(line.as_str(), pattern) {
                let a = sat_u32_exec(idx);
                let b = if idx < usize::MAX {
                    sat_u32_exec(idx + 1)
                } else {
                    u32::MAX
                };
                return Some(Range::new(Position::new(a, 0), Position::new(b, 0)));
            }
            pos = if ll_end < n {
                ll_end + 1
            } else {
                n
            };
            idx += 1;
        }
        None
    }

    /// This snippet's own fault, as `check_fault` describes it.
    pub fn check_possible_errors(&self, depth: u8) -> (r: Option<Diagnostic>)
        ensures
            match r {
                Some(d) => check_fault(self@, depth) == Some(d@),
                None => check_fault(self@, depth) is None,
            },
    {
        if depth > 15 {
            return Some(self.depth_diagnostic());
        }
        if let Some(range) = self.get_range_by_pattern("@version") {
            return Some(
                Diagnostic::new(
                    range,
                    Severity::Error,
                    String::from_str("syslog-ng LSP server"),
                    String::from_str("Snippets can not contain @version"),
                ),
            );
        }
        None
    }

    /// Build this snippet's depth fault, as `depth_diag` describes it.
    fn depth_diagnostic(&self) -> (r: Diagnostic)
        ensures
            r@ == depth_diag(self@),
    {
        Diagnostic::new(
            self.get_whole_content_range(),
            Severity::Error,
            String::from_str("syslog-ng LSP server"),
            String::from_str(
                "Snippet depth limit (15) has been reached, diagnostics might be unreliable. Make sure snippet references are not circular",
            ),
        )
    }
}


// ---------------------------------------------------------------------------
// Resolution.
// ---------------------------------------------------------------------------
/// What resolving a snippet does: a snippet with an own fault records it
/// and fails without recursing; otherwise its children are sorted by
/// identity, resolved in that order, and their resolved texts followed by
/// the snippet's own content become its resolved content. A child fault
/// aborts resolution and is reported against the directive that pulled
/// the child in.
pub open spec fn resolve_of(s: SnippetV, depth: u8) -> (SnippetV, Result<Seq<char>, DiagnosticV>)
    decreases 16 - depth, 0int,
{
    match check_fault(s, depth) {
        Some(d) => (SnippetV { diagnostics: s.diagnostics.push(d), ..s }, Err(d)),
        None => {
            let rc = resolve_children(sort_by_uri(s.children), (depth + 1) as u8);
            match rc.1 {
                Ok(mc) => (
                    (SnippetV { children: rc.0, resolved: mc + s.content, ..s }),
                    Ok(mc + s.content),
                ),
                Err(d) => ((SnippetV { children: rc.0, ..s }), Err(d)),
            }
        },
    }
}

/// Resolve a row of snippets in order, concatenating their resolved
/// texts; the first fault wins and leaves the later siblings untouched.
pub open spec fn resolve_children(cs: Seq<SnippetV>, depth: u8) -> (
    Seq<SnippetV>,
    Result<Seq<char>, DiagnosticV>,
)
    decreases 16 - depth, cs.len(),
{
    if cs.len() == 0 {
        (cs, Ok(Seq::empty()))
    } else {
        let r0 = resolve_of(cs.first(), depth);
        match r0.1 {
            Err(_) => (seq![r0.0] + cs.drop_first(), Err(child_fault_diag(cs.first()))),
            Ok(m0) => {
                let rr = resolve_children(cs.drop_first(), depth);
                match rr.1 {
                    Ok(m) => (seq![r0.0] + rr.0, Ok(m0 + m)),
                    Err(d) => (seq![r0.0] + rr.0, Err(d)),
                }
            },
        }
    }
}

impl Snippet {
    /// The fault a parent reports for this failed child: it points at the
    /// snippet directive, as `child_fault_diag` describes it.
    fn child_fault_diagnostic(&self) -> (r: Diagnostic)
        ensures
            r@ == child_fault_diag(self@),
    {
        let mut message = String::from_str("Snippet ");
        message.append(self.snippet_uri.as_str());
        message.append(" has errors in it");
        proof {
            assert(message@ =~= "Snippet "@ + self@.uri + " has errors in it"@);
        }
        Diagnostic::new(self.directive_range, Severity::Error, String::new(), message)
    }

    /// Resolve this snippet tree, as `resolve_of` describes it: record an
    /// own fault and stop, or sort the children by identity, resolve them
    /// in order, and merge their resolved texts with this snippet's own
    /// content.
    pub fn resolve(&mut self, depth: u8) -> (r: Result<String, Diagnostic>)
        ensures
            ({
                let rr = resolve_of(old(self)@, depth);
                &&& final(self)@ == rr.0
                &&& match (r, rr.1) {
                    (Ok(m), Ok(sm)) => m@ == sm,
                    (Err(d), Err(sd)) => d@ == sd,
                    _ => false,
                }
            }),
        decreases 16int - depth,
    {
        let ghost s0 = self@;
        proof {
            lemma_views_of(self.children);
        }
        // own faults: too deep, or a version annotation in a fragment
        if depth > 15 {
            let d = self.depth_diagnostic();
            let d2 = self.depth_diagnostic();
            self.diagnostics.push(d);
            proof {
                assert(self@.diagnostics =~= s0.diagnostics.push(depth_diag(s0)));
                assert(self@ == (SnippetV { diagnostics: s0.diagnostics.push(depth_diag(s0)), ..s0 }));
            }
            return Err(d2);
        }
        if let Some(range) = self.get_range_by_pattern("@version") {
            let d = Diagnostic::new(
                range,
                Severity::Error,
                String::from_str("syslog-ng LSP server"),
                String::from_str("Snippets can not contain @version"),
            );
            let d2 = Diagnostic::new(
                range,
                Severity::Error,
                String::from_str("syslog-ng LSP server"),
                String::from_str("Snippets can not contain @version"),
            );
            self.diagnostics.push(d);
            proof {
                assert(self@.diagnostics =~= s0.diagnostics.push(version_diag(s0)));
                assert(self@ == (SnippetV {
                    diagnostics: s0.diagnostics.push(version_diag(s0)),
                    ..s0
                }));
            }
            return Err(d2);
        }
        // sort the children into the deterministic resolution order
        let ghost orig_children: Seq<Snippet> = self.children@;
        let ghost orig_len: int = orig_children.len() as int;
        let mut sorted_vec: Vec<Snippet> = Vec::new();
        let ghost mut consumed: int = 0;
        proof {
            assert(views_of(orig_children).take(0) =~= Seq::<SnippetV>::empty());
            assert(views_of(sorted_vec@) =~= Seq::<SnippetV>::empty());
            assert(orig_children.skip(0) =~= orig_children);
        }
        while self.children.len() > 0
            invariant
                s0 == old(self)@,
                0 <= consumed <= orig_len,
                orig_len == orig_children.len(),
                self.children@ == orig_children.skip(consumed),
                views_of(sorted_vec@) == sort_by_uri(views_of(orig_children).take(consumed)),
                self.content@ == s0.content,
                self.directive_range == s0.directive_range,
                self.snippet_uri@ == s0.uri,
                self.diagnostics@.map_values(|d: Diagnostic| d@) == s0.diagnostics,
                self.resolved_content@ == s0.resolved,
                self.depth == s0.depth,
            decreases self.children@.len(),
        {
            let x = self.children.remove(0);
            proof {
                assert(x == orig_children[consumed]);
                assert(self.children@ =~= orig_children.skip(consumed + 1));
            }
            let ghost sorted_before = views_of(sorted_vec@);
            insert_child(&mut sorted_vec, x);
            proof {
                let pre = views_of(orig_children).take(consumed);
                let now = views_of(orig_children).take(consumed + 1);
                assert(now.drop_last() =~= pre);
                assert(now.last() == snippet_view(orig_children[consumed]));
                assert(views_of(sorted_vec@) == insert_sorted(
                    sort_by_uri(pre),
                    snippet_view(orig_children[consumed]),
                ));
                consumed = consumed + 1;
            }
        }
        proof {
            assert(views_of(orig_children).take(orig_len) =~= views_of(orig_children));
            assert(views_of(orig_children) =~= s0.children);
        }
        // resolve the children in order, merging their resolved texts
        let ghost full: Seq<SnippetV> = sort_by_uri(s0.children);
        let ghost dd: u8 = (depth + 1) as u8;
        let mut done: Vec<Snippet> = Vec::new();
        let mut merged = String::new();
        let ghost mut k2: int = 0;
        proof {
            assert(views_of(done@) =~= Seq::<SnippetV>::empty());
            assert(full.skip(0) =~= full);
        }
        loop
            invariant_except_break
                s0 == old(self)@,
                depth <= 15,
                check_fault(s0, depth) is None,
                dd == (depth + 1) as u8,
                full == sort_by_uri(s0.children),
                0 <= k2 <= full.len(),
                views_of(sorted_vec@) == full.skip(k2),
                ({
                    let whole = resolve_children(full, dd);
                    let rest = resolve_children(full.skip(k2), dd);
                    &&& whole.0 == views_of(done@) + rest.0
                    &&& match (whole.1, rest.1) {
                        (Ok(a), Ok(b)) => a == merged@ + b,
                        (Err(x), Err(y)) => x == y,
                        _ => false,
                    }
                }),
                self.children@.len() == 0,
                self.content@ == s0.content,
                self.directive_range == s0.directive_range,
                self.snippet_uri@ == s0.uri,
                self.diagnostics@.map_values(|d: Diagnostic| d@) == s0.diagnostics,
                self.resolved_content@ == s0.resolved,
                self.depth == s0.depth,
            ensures
                s0 == old(self)@,
                depth <= 15,
                check_fault(s0, depth) is None,
                resolve_children(full, dd).0 == views_of(done@),
                resolve_children(full, dd).1 matches Ok(m) && m == merged@,
                self.children@.len() == 0,
                self.content@ == s0.content,
                self.directive_range == s0.directive_range,
                self.snippet_uri@ == s0.uri,
                self.diagnostics@.map_values(|d: Diagnostic| d@) == s0.diagnostics,
                self.resolved_content@ == s0.resolved,
                self.depth == s0.depth,
            decreases sorted_vec@.len(),
        {
            if sorted_vec.len() == 0 {
                proof {
                    assert(full.skip(k2) =~= Seq::<SnippetV>::empty());
                    assert(views_of(done@) + Seq::<SnippetV>::empty() =~= views_of(done@));
                }
                break ;
            }
            let ghost restv = full.skip(k2);
            let ghost pre_vec = sorted_vec@;
            let mut c = sorted_vec.remove(0);
            let ghost c0 = c@;
            proof {
                assert(c0 == restv.first());
                assert(sorted_vec@ =~= pre_vec.drop_first());
                assert(views_of(sorted_vec@) =~= views_of(pre_vec).drop_first());
                assert(views_of(pre_vec).drop_first() =~= full.skip(k2 + 1));
            }
            match c.resolve(depth + 1) {
                Ok(m) => {
                    merged.append(m.as_str());
                    let ghost done_before = views_of(done@);
                    done.push(c);
                    proof {
                        assert(views_of(done@) =~= done_before.push(resolve_of(c0, dd).0));
                        assert(restv.drop_first() =~= full.skip(k2 + 1));
                        assert(done_before + (seq![resolve_of(c0, dd).0] + resolve_children(
                            full.skip(k2 + 1),
                            dd,
                        ).0) =~= views_of(done@) + resolve_children(full.skip(k2 + 1), dd).0);
                        k2 = k2 + 1;
                    }
                },
                Err(_child_diag) => {
                    let fault = c.child_fault_diagnostic();
                    proof {
                        assert(resolve_of(c0, dd).0.uri == c0.uri);
                        assert(resolve_of(c0, dd).0.directive_range == c0.directive_range);
                        assert(fault@ == child_fault_diag(c0));
                        assert(restv.drop_first() =~= full.skip(k2 + 1));
                    }
                    let ghost done_before = views_of(done@);
                    done.push(c);
                    proof {
                        assert(views_of(done@) =~= done_before.push(resolve_of(c0, dd).0));
                    }
                    let ghost target = views_of(done@) + full.skip(k2 + 1);
                    while sorted_vec.len() > 0
                        invariant
                            views_of(done@) + views_of(sorted_vec@) == target,
                        decreases sorted_vec@.len(),
                    {
                        let ghost before_done = views_of(done@);
                        let ghost before_rest = sorted_vec@;
                        let y = sorted_vec.remove(0);
                        done.push(y);
                        proof {
                            assert(sorted_vec@ =~= before_rest.drop_first());
                            assert(views_of(done@) =~= before_done.push(
                                snippet_view(before_rest.first()),
                            ));
                            assert(views_of(done@) + views_of(sorted_vec@) =~= before_done
                                + views_of(before_rest));
                        }
                    }
                    proof {
                        assert(views_of(sorted_vec@) =~= Seq::<SnippetV>::empty());
                        assert(views_of(done@) =~= target);
                    }
                    self.children = done;
                    proof {
                        lemma_views_of(self.children);
                        assert(resolve_children(full, dd).0 == views_of(self.children@));
                        assert(resolve_children(full, dd).1 == Err::<Seq<char>, DiagnosticV>(
                            child_fault_diag(c0),
                        ));
                        assert(self@ == resolve_of(s0, depth).0);
                    }
                    return Err(fault);
                },
            }
        }
        merged.append(self.content.as_str());
        self.children = done;
        self.resolved_content = merged.clone();
        proof {
            lemma_views_of(self.children);
            assert(self@ == resolve_of(s0, depth).0);
        }
        Ok(merged)
    }
}

// ---------------------------------------------------------------------------
// The configuration aggregate: snippets, text, completion.
// ---------------------------------------------------------------------------
/// Insert a snippet, overwriting the first earlier snippet with the same
/// document identity.
pub open spec fn snippet_upsert(ss: Seq<SnippetV>, x: SnippetV) -> Seq<SnippetV>
    decreases ss.len(),
{
    if ss.len() == 0 {
        seq![x]
    } else if ss.first().uri == x.uri {
        seq![x] + ss.drop_first()
    } else {
        seq![ss.first()] + snippet_upsert(ss.drop_first(), x)
    }
}

proof fn lemma_snippet_upsert_found(ss: Seq<SnippetV>, x: SnippetV, i: int)
    requires
        0 <= i < ss.len(),
        ss[i].uri == x.uri,
        forall|k: int| 0 <= k < i ==> ss[k].uri != x.uri,
    ensures
        snippet_upsert(ss, x) == ss.update(i, x),
    decreases ss.len(),
{
    if i == 0 {
        assert(snippet_upsert(ss, x) =~= ss.update(0, x));
    } else {
        lemma_snippet_upsert_found(ss.drop_first(), x, i - 1);
        assert(ss.drop_first().update(i - 1, x) =~= ss.update(i, x).drop_first());
        assert(snippet_upsert(ss, x) =~= ss.update(i, x));
    }
}

proof fn lemma_snippet_upsert_absent(ss: Seq<SnippetV>, x: SnippetV)
    requires
        forall|k: int| 0 <= k < ss.len() ==> ss[k].uri != x.uri,
    ensures
        snippet_upsert(ss, x) == ss.push(x),
    decreases ss.len(),
{
    if ss.len() == 0 {
        assert(snippet_upsert(ss, x) =~= ss.push(x));
    } else {
        lemma_snippet_upsert_absent(ss.drop_first(), x);
        assert(snippet_upsert(ss, x) =~= ss.push(x));
    }
}

/// The first object whose recorded location contains the cursor decides
/// the context; outside every object the context is the root.
pub open spec fn context_lookup(objs: Seq<ObjectV>, uri: Seq<char>, pos: Position) -> Context
    decreases objs.len(),
{
    if objs.len() == 0 {
        Context::Root
    } else if crate::language_types::obj_contains(objs.first(), uri, pos) {
        context_of_kind(objs.first().kind)
    } else {
        context_lookup(objs.drop_first(), uri, pos)
    }
}

/// The keyword of a non-root context.
pub open spec fn context_keyword(c: Context) -> Seq<char> {
    match c {
        Context::Root => Seq::empty(),
        Context::Source => "source"@,
        Context::Destination => "destination"@,
        Context::Log => "log"@,
        Context::Filter => "filter"@,
        Context::Parser => "parser"@,
        Context::RewriteRule => "rewrite"@,
        Context::Template => "template"@,
    }
}

/// The completion candidates at a cursor: the fixed root keywords outside
/// every object; inside an object, the schema options of the driver and
/// nested block the cursor sits in, or nothing when no driver can be
/// resolved or the schema does not know it.
pub open spec fn completion_of(
    conf: ConfigV,
    db: crate::grammar::GrammarDatabaseV,
    p: crate::protocol::CompletionParamsV,
    text: Seq<char>,
) -> Option<Seq<crate::protocol::CompletionItemV>> {
    let ctx = context_lookup(conf.objects, p.uri, p.position);
    if ctx == Context::Root {
        Some(
            root_keywords_items(),
        )
    } else {
        match crate::file_utilities::driver_before(text, p.position.line as int) {
            None => None,
            Some(d) => match crate::grammar::all_options_of(
                db,
                context_keyword(ctx),
                d,
                crate::file_utilities::block_of(text, p.position.line as int),
            ) {
                None => None,
                Some(table) => Some(
                    table.map_values(
                        |pr: (Seq<char>, Seq<char>)|
                            crate::protocol::CompletionItemV { label: pr.0, detail: pr.1 },
                    ),
                ),
            },
        }
    }
}

/// The root-level candidates: each fixed keyword, labeled by itself.
pub open spec fn root_keywords_items() -> Seq<crate::protocol::CompletionItemV> {
    crate::grammar::root_keywords().map_values(
        |kw: Seq<char>| crate::protocol::CompletionItemV { label: kw, detail: kw },
    )
}

impl SyslogNgConfiguration {
    /// Store a snippet under its document identity; a snippet of the same
    /// identity is replaced.
    pub fn add_snippet(&mut self, snippet: Snippet)
        ensures
            final(self)@ == (ConfigV {
                snippets: snippet_upsert(old(self)@.snippets, snippet@),
                ..old(self)@
            }),
    {
        let ghost before = self@;
        let ghost xv = snippet@;
        let n = self.snippets.len();
        let mut i: usize = 0;
        while i < n
            invariant
                n == self.snippets.len(),
                0 <= i <= n,
                before == self@,
                before == old(self)@,
                xv == snippet@,
                forall|k: int| 0 <= k < i ==> before.snippets[k].uri != xv.uri,
            decreases n - i,
        {
            proof {
                assert(before.snippets[i as int] == snippet_view(self.snippets@[i as int]));
            }
            if crate::text::str_eq(
                self.snippets[i].snippet_uri.as_str(),
                snippet.snippet_uri.as_str(),
            ) {
                proof {
                    lemma_snippet_upsert_found(before.snippets, xv, i as int);
                }
                self.snippets.set(i, snippet);
                proof {
                    assert(self@.snippets =~= before.snippets.update(i as int, xv));
                }
                return ;
            }
            i += 1;
        }
        self.snippets.push(snippet);
        proof {
            lemma_snippet_upsert_absent(before.snippets, xv);
            assert(self@.snippets =~= before.snippets.push(xv));
        }
    }

    /// Take the main document's text: a text that declares `@version` is
    /// the main configuration, is appended to the stored text, and the
    /// whole stored text is read again; any other text is ignored.
    pub fn add_configuration(&mut self, conf: &str)
        ensures
            !contains_seq(conf@, "@version"@) ==> final(self)@ == old(self)@,
            contains_seq(conf@, "@version"@) ==> final(self)@ == ({
                let full = old(self)@.configuration + conf@;
                let oc = crate::parser::conf_fold(
                    full,
                    ""@,
                    0,
                    Seq::empty(),
                    0,
                    old(self)@.version,
                    old(self)@.imports,
                    old(self)@.objects,
                );
                ConfigV {
                    configuration: full,
                    version: oc.version,
                    imports: oc.imports,
                    objects: oc.objects,
                    ..old(self)@
                }
            }),
    {
        if contains_str(conf, "@version") {
            self.configuration.append(conf);
            let text = self.configuration.clone();
            crate::parser::try_parse_configuration(text.as_str(), self);
        }
    }

    /// Shape one schema option as a completion candidate.
    pub fn transform_grammar_option_to_completion_response(
        label: &str,
        details: &str,
    ) -> (r: crate::protocol::CompletionItem)
        ensures
            r@.label == label@,
            r@.detail == details@,
    {
        crate::protocol::CompletionItem {
            label: String::from_str(label),
            detail: String::from_str(details),
        }
    }

    /// Classify the cursor position, as `context_lookup` describes it.
    pub fn get_context(&self, params: &crate::protocol::CompletionParams) -> (r: Context)
        ensures
            r == context_lookup(self@.objects, params@.uri, params@.position),
    {
        let n = self.objects.len();
        let mut i: usize = 0;
        proof {
            assert(self@.objects.subrange(0, n as int) =~= self@.objects);
        }
        while i < n
            invariant
                n == self.objects.len(),
                0 <= i <= n,
                self@.objects.len() == n,
                context_lookup(self@.objects, params@.uri, params@.position) == context_lookup(
                    self@.objects.subrange(i as int, n as int),
                    params@.uri,
                    params@.position,
                ),
            decreases n - i,
        {
            let obj = &self.objects[i];
            proof {
                assert(self@.objects.subrange(i as int, n as int).first()
                    == self@.objects[i as int]);
                assert(self@.objects.subrange(i as int, n as int).drop_first()
                    =~= self@.objects.subrange(i + 1, n as int));
                assert(obj@ == self@.objects[i as int]);
            }
            if obj.is_inside_document_position(params) {
                return Context::from_kind(obj.get_kind());
            }
            i += 1;
        }
        proof {
            assert(self@.objects.subrange(n as int, n as int) =~= Seq::<ObjectV>::empty());
        }
        Context::Root
    }

    /// The block name at the cursor, as `block_of` describes it; the
    /// caller supplies the text of the cursor's document.
    pub fn is_inside_concrete_driver(
        &self,
        params: &crate::protocol::CompletionParams,
        document_text: &str,
    ) -> (r: Option<String>)
        ensures
            match r {
                Some(b) => crate::file_utilities::block_of(
                    document_text@,
                    params@.position.line as int,
                ) == Some(b@),
                None => crate::file_utilities::block_of(
                    document_text@,
                    params@.position.line as int,
                ) is None,
            },
    {
        crate::file_utilities::get_block_by_position(document_text, params.position.line)
    }

    /// The completion candidates at the cursor, as `completion_of`
    /// describes them; the caller supplies the text of the cursor's
    /// document.
    pub fn get_code_completion(
        &self,
        db: &crate::grammar::GrammarDatabase,
        params: &crate::protocol::CompletionParams,
        document_text: &str,
    ) -> (r: Option<Vec<crate::protocol::CompletionItem>>)
        ensures
            match r {
                Some(items) => completion_of(self@, db@, params@, document_text@) == Some(
                    items@.map_values(|it: crate::protocol::CompletionItem| it@),
                ),
                None => completion_of(self@, db@, params@, document_text@) is None,
            },
    {
        let context = self.get_context(params);
        let object_type: String = match context {
            Context::Root => {
                let keywords = crate::grammar::grammar_get_root_level_keywords();
                let mut response: Vec<crate::protocol::CompletionItem> = Vec::new();
                let kn = keywords.len();
                let mut i: usize = 0;
                proof {
                    assert(response@.map_values(|it: crate::protocol::CompletionItem| it@)
                        =~= root_keywords_items().subrange(0, 0));
                }
                while i < kn
                    invariant
                        kn == keywords.len(),
                        0 <= i <= kn,
                        keywords.deep_view() == crate::grammar::root_keywords(),
                        kn == crate::grammar::root_keywords().len(),
                        response@.map_values(|it: crate::protocol::CompletionItem| it@)
                            == root_keywords_items().subrange(0, i as int),
                    decreases kn - i,
                {
                    let ghost before = response@.map_values(
                        |it: crate::protocol::CompletionItem| it@,
                    );
                    let kw = keywords[i].as_str();
                    let item = SyslogNgConfiguration::transform_grammar_option_to_completion_response(
                        kw,
                        kw,
                    );
                    response.push(item);
                    proof {
                        assert(keywords.deep_view()[i as int] == keywords@[i as int]@);
                        assert(root_keywords_items()[i as int]
                            == (crate::protocol::CompletionItemV {
                            label: crate::grammar::root_keywords()[i as int],
                            detail: crate::grammar::root_keywords()[i as int],
                        }));
                        assert(item@ == root_keywords_items()[i as int]);
                        assert(response@.map_values(|it: crate::protocol::CompletionItem| it@)
                            =~= before.push(item@));
                        assert(before.push(item@) =~= root_keywords_items().subrange(0, i + 1));
                    }
                    i += 1;
                }
                proof {
                    assert(root_keywords_items().subrange(
                        0,
                        crate::grammar::root_keywords().len() as int,
                    ) =~= root_keywords_items());
                }
                return Some(response);
            },
            Context::Source => ObjectKind::Source.keyword(),
            Context::Destination => ObjectKind::Destination.keyword(),
            Context::Log => ObjectKind::Log.keyword(),
            Context::Filter => ObjectKind::Filter.keyword(),
            Context::Parser => ObjectKind::Parser.keyword(),
            Context::RewriteRule => ObjectKind::RewriteRule.keyword(),
            Context::Template => ObjectKind::Template.keyword(),
        };
        let driver = match crate::file_utilities::get_driver_before_position(
            document_text,
            params.position.line,
        ) {
            Some(d) => d,
            None => {
                return None;
            },
        };
        let inner_block = crate::file_utilities::get_block_by_position(
            document_text,
            params.position.line,
        );
        let table = match crate::grammar::grammar_get_all_options(
            db,
            object_type.as_str(),
            driver.as_str(),
            &inner_block,
        ) {
            Some(t) => t,
            None => {
                return None;
            },
        };
        let ghost tablev = table@.map_values(|pr: (String, String)| (pr.0@, pr.1@));
        let mut response: Vec<crate::protocol::CompletionItem> = Vec::new();
        let tn = table.len();
        let mut i: usize = 0;
        let ghost target = tablev.map_values(
            |pr: (Seq<char>, Seq<char>)| crate::protocol::CompletionItemV {
                label: pr.0,
                detail: pr.1,
            },
        );
        proof {
            assert(response@.map_values(|it: crate::protocol::CompletionItem| it@)
                =~= target.subrange(0, 0));
        }
        while i < tn
            invariant
                tn == table.len(),
                0 <= i <= tn,
                tablev == table@.map_values(|pr: (String, String)| (pr.0@, pr.1@)),
                target == tablev.map_values(
                    |pr: (Seq<char>, Seq<char>)| crate::protocol::CompletionItemV {
                        label: pr.0,
                        detail: pr.1,
                    },
                ),
                target.len() == tn,
                response@.map_values(|it: crate::protocol::CompletionItem| it@)
                    == target.subrange(0, i as int),
            decreases tn - i,
        {
            let ghost before = response@.map_values(|it: crate::protocol::CompletionItem| it@);
            let item = SyslogNgConfiguration::transform_grammar_option_to_completion_response(
                table[i].0.as_str(),
                table[i].1.as_str(),
            );
            response.push(item);
            proof {
                assert(tablev[i as int] == (table@[i as int].0@, table@[i as int].1@));
                assert(target[i as int] == (crate::protocol::CompletionItemV {
                    label: tablev[i as int].0,
                    detail: tablev[i as int].1,
                }));
                assert(item@ == target[i as int]);
                assert(response@.map_values(|it: crate::protocol::CompletionItem| it@)
                    =~= before.push(item@));
                assert(before.push(item@) =~= target.subrange(0, i + 1));
            }
            i += 1;
        }
        proof {
            assert(target.subrange(0, tn as int) =~= target);
        }
        Some(response)
    }
}

// ---------------------------------------------------------------------------
// Laws of resolution and completion.
// ---------------------------------------------------------------------------
/// Splitting off the first snippet splits the merged text.
proof fn lemma_merged_children_cons(x: SnippetV, ys: Seq<SnippetV>)
    ensures
        merged_children(seq![x] + ys) == merged_of(x) + merged_children(ys),
    decreases ys.len(),
{
    if ys.len() == 0 {
        assert((seq![x] + ys) =~= seq![x]);
        assert(seq![x].drop_last() =~= Seq::<SnippetV>::empty());
        assert(merged_children(Seq::<SnippetV>::empty()) =~= Seq::<char>::empty());
        assert(seq![x].last() == x);
        assert(merged_children(seq![x]) == merged_children(Seq::<SnippetV>::empty()) + merged_of(
            x,
        ));
        assert(Seq::<char>::empty() + merged_of(x) =~= merged_of(x));
        assert(merged_of(x) + merged_children(ys) =~= merged_of(x));
    } else {
        lemma_merged_children_cons(x, ys.drop_last());
        assert((seq![x] + ys).drop_last() =~= seq![x] + ys.drop_last());
        assert((seq![x] + ys).last() == ys.last());
        assert((merged_of(x) + merged_children(ys.drop_last())) + merged_of(ys.last())
            =~= merged_of(x) + (merged_children(ys.drop_last()) + merged_of(ys.last())));
    }
}

/// Law (round trip): a resolution that succeeds returns exactly the
/// merged text of the resolved tree — the children's texts in resolution
/// order followed by the snippet's own content; for a snippet without
/// children that is its own content, unchanged.
pub proof fn lemma_resolve_round_trip(s: SnippetV, depth: u8)
    requires
        resolve_of(s, depth).1 is Ok,
    ensures
        resolve_of(s, depth).1->Ok_0 == merged_of(resolve_of(s, depth).0),
        s.children.len() == 0 ==> resolve_of(s, depth).1->Ok_0 == s.content,
    decreases 16 - depth, 0int,
{
    let rc = resolve_children(sort_by_uri(s.children), (depth + 1) as u8);
    lemma_resolve_children_round_trip(sort_by_uri(s.children), (depth + 1) as u8);
    let new = resolve_of(s, depth).0;
    assert(merged_of(new) == merged_children(new.children) + new.content);
    if s.children.len() == 0 {
        assert(sort_by_uri(s.children) =~= Seq::<SnippetV>::empty());
        assert(rc.0 =~= Seq::<SnippetV>::empty());
        assert(rc.1->Ok_0 =~= Seq::<char>::empty());
        assert(Seq::<char>::empty() + s.content =~= s.content);
    }
}

/// Law (round trip, rows): a row resolution that succeeds returns the
/// concatenation of the resolved children's merged texts.
pub proof fn lemma_resolve_children_round_trip(cs: Seq<SnippetV>, depth: u8)
    requires
        resolve_children(cs, depth).1 is Ok,
    ensures
        resolve_children(cs, depth).1->Ok_0 == merged_children(resolve_children(cs, depth).0),
    decreases 16 - depth, cs.len(),
{
    if cs.len() == 0 {
        assert(merged_children(resolve_children(cs, depth).0) =~= Seq::<char>::empty());
    } else {
        let r0 = resolve_of(cs.first(), depth);
        lemma_resolve_round_trip(cs.first(), depth);
        let rr = resolve_children(cs.drop_first(), depth);
        lemma_resolve_children_round_trip(cs.drop_first(), depth);
        lemma_merged_children_cons(r0.0, rr.0);
    }
}

/// Law: at a cursor outside every object, the completion candidates are
/// exactly the seven fixed root-level keywords, labeled by themselves.
pub proof fn lemma_root_completion(
    conf: ConfigV,
    db: crate::grammar::GrammarDatabaseV,
    p: crate::protocol::CompletionParamsV,
    text: Seq<char>,
)
    requires
        context_lookup(conf.objects, p.uri, p.position) == Context::Root,
    ensures
        completion_of(conf, db, p, text) == Some(root_keywords_items()),
        root_keywords_items().len() == 7,
        forall|i: int| 0 <= i < 7 ==> #[trigger] root_keywords_items()[i].label
            == crate::grammar::root_keywords()[i] && root_keywords_items()[i].detail
            == crate::grammar::root_keywords()[i],
{
}

/// Law: at a cursor inside an object, when an enclosing driver is
/// resolved and the schema knows it, the candidates are exactly that
/// driver's (or its nested block's) option table — each option under its
/// canonical name, deprecated aliases collapsed.
pub proof fn lemma_object_completion(
    conf: ConfigV,
    db: crate::grammar::GrammarDatabaseV,
    p: crate::protocol::CompletionParamsV,
    text: Seq<char>,
)
    requires
        context_lookup(conf.objects, p.uri, p.position) != Context::Root,
        crate::file_utilities::driver_before(text, p.position.line as int) is Some,
    ensures
        ({
            let ctx = context_lookup(conf.objects, p.uri, p.position);
            let drv = crate::file_utilities::driver_before(text, p.position.line as int)->Some_0;
            let table = crate::grammar::all_options_of(
                db,
                context_keyword(ctx),
                drv,
                crate::file_utilities::block_of(text, p.position.line as int),
            );
            completion_of(conf, db, p, text) == match table {
                Some(t) => Some(
                    t.map_values(
                        |pr: (Seq<char>, Seq<char>)|
                            crate::protocol::CompletionItemV { label: pr.0, detail: pr.1 },
                    ),
                ),
                None => None::<Seq<crate::protocol::CompletionItemV>>,
            }
        }),
{
}

/// Law (depth guard): a snippet past the nesting ceiling records exactly
/// one depth fault and does not recurse: its children are untouched.
pub proof fn lemma_depth_guard(s: SnippetV, depth: u8)
    requires
        depth > depth_ceiling(),
    ensures
        resolve_of(s, depth).0 == (SnippetV {
            diagnostics: s.diagnostics.push(depth_diag(s)),
            ..s
        }),
        resolve_of(s, depth).0.children == s.children,
        resolve_of(s, depth).1 == Err::<Seq<char>, DiagnosticV>(depth_diag(s)),
{
}

/// Law (no version in snippets): a snippet within the nesting ceiling
/// whose content declares `@version` records exactly one version fault,
/// and gets no merged content: its resolved text is untouched.
pub proof fn lemma_version_guard(s: SnippetV, depth: u8)
    requires
        depth <= depth_ceiling(),
        pattern_line_from(s.content, "@version"@, 0, 0) is Some,
    ensures
        resolve_of(s, depth).0 == (SnippetV {
            diagnostics: s.diagnostics.push(version_diag(s)),
            ..s
        }),
        resolve_of(s, depth).0.resolved == s.resolved,
        resolve_of(s, depth).1 == Err::<Seq<char>, DiagnosticV>(version_diag(s)),
{
}

} // verus!
