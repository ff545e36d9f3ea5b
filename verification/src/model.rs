//! Domain types shared by the data index and the matcher: extracted
//! command-line options, parsed manpages, and explanation results.
//!
//! Each type has a model (its view) in which strings are character
//! sequences and vectors are sequences; the clones keep the model.

use vstd::prelude::*;
use crate::text::{push_str, str_eq};

verus! {

// ---------------------------------------------------------------------
// String helpers on models
// ---------------------------------------------------------------------

/// Model of a vector of strings.
pub open spec fn strs(v: Seq<String>) -> Seq<Seq<char>> {
    v.map_values(|s: String| s@)
}

/// Model of an optional string.
pub open spec fn opt_str(o: Option<String>) -> Option<Seq<char>> {
    match o {
        Some(s) => Some(s@),
        None => None,
    }
}

/// Copy of a vector of strings.
pub fn clone_strings(v: &Vec<String>) -> (r: Vec<String>)
    ensures
        strs(r@) == strs(v@),
{
    let mut out: Vec<String> = Vec::new();
    let mut i: usize = 0;
    while i < v.len()
        invariant
            i <= v@.len(),
            out@.len() == i,
            forall|k: int| 0 <= k < i ==> #[trigger] out@[k]@ == v@[k]@,
        decreases v@.len() - i,
    {
        out.push(v[i].clone());
        i += 1;
    }
    assert(strs(out@) =~= strs(v@));
    out
}

/// Copy of an optional string.
pub fn clone_opt_string(o: &Option<String>) -> (r: Option<String>)
    ensures
        opt_str(r) == opt_str(*o),
{
    match o {
        Some(s) => Some(s.clone()),
        None => None,
    }
}

/// True when `v` holds a string equal to `s`.
pub fn contains_str(v: &Vec<String>, s: &str) -> (r: bool)
    ensures
        r == strs(v@).contains(s@),
{
    let mut i: usize = 0;
    while i < v.len()
        invariant
            i <= v@.len(),
            forall|k: int| 0 <= k < i ==> #[trigger] v@[k]@ != s@,
        decreases v@.len() - i,
    {
        if str_eq(v[i].as_str(), s) {
            assert(strs(v@)[i as int] == s@);
            return true;
        }
        i += 1;
    }
    proof {
        if strs(v@).contains(s@) {
            let k = choose|k: int| 0 <= k < strs(v@).len() && strs(v@)[k] == s@;
            assert(v@[k]@ == s@);
        }
    }
    false
}

// ---------------------------------------------------------------------
// Options
// ---------------------------------------------------------------------

/// Whether an option expects an argument.
#[derive(Debug, PartialEq)]
pub enum HasArgument {
    /// true = expects an argument
    Bool(bool),
    /// Possible argument values
    List(Vec<String>),
}

/// Model of [`HasArgument`].
pub enum HasArgumentView {
    Bool(bool),
    List(Seq<Seq<char>>),
}

impl View for HasArgument {
    type V = HasArgumentView;

    open spec fn view(&self) -> HasArgumentView {
        match self {
            HasArgument::Bool(b) => HasArgumentView::Bool(*b),
            HasArgument::List(v) => HasArgumentView::List(strs(v@)),
        }
    }
}

impl Clone for HasArgument {
    fn clone(&self) -> (r: Self)
        ensures
            r@ == self@,
    {
        match self {
            HasArgument::Bool(b) => HasArgument::Bool(*b),
            HasArgument::List(v) => HasArgument::List(clone_strings(v)),
        }
    }
}

impl Default for HasArgument {
    fn default() -> (r: Self)
        ensures
            r@ == HasArgumentView::Bool(false),
    {
        HasArgument::Bool(false)
    }
}

/// Positional argument specification.
#[derive(Debug, PartialEq)]
pub enum Positional {
    /// Named positional (e.g. "file")
    Name(String),
    /// Boolean positional flag
    Bool(bool),
}

/// Model of [`Positional`].
pub enum PositionalView {
    Name(Seq<char>),
    Bool(bool),
}

impl View for Positional {
    type V = PositionalView;

    open spec fn view(&self) -> PositionalView {
        match self {
            Positional::Name(s) => PositionalView::Name(s@),
            Positional::Bool(b) => PositionalView::Bool(*b),
        }
    }
}

impl Clone for Positional {
    fn clone(&self) -> (r: Self)
        ensures
            r@ == self@,
    {
        match self {
            Positional::Name(s) => Positional::Name(s.clone()),
            Positional::Bool(b) => Positional::Bool(*b),
        }
    }
}

/// Model of an optional positional.
pub open spec fn opt_positional(o: Option<Positional>) -> Option<PositionalView> {
    match o {
        Some(p) => Some(p@),
        None => None,
    }
}

/// Nested command specification.
#[derive(Debug, PartialEq)]
pub enum NestedCmd {
    /// Simple boolean
    Bool(bool),
    /// Single end-word that terminates the nested command
    Str(String),
    /// End-words that terminate the nested command
    List(Vec<String>),
}

/// Model of [`NestedCmd`].
pub enum NestedCmdView {
    Bool(bool),
    Str(Seq<char>),
    List(Seq<Seq<char>>),
}

impl View for NestedCmd {
    type V = NestedCmdView;

    open spec fn view(&self) -> NestedCmdView {
        match self {
            NestedCmd::Bool(b) => NestedCmdView::Bool(*b),
            NestedCmd::Str(s) => NestedCmdView::Str(s@),
            NestedCmd::List(v) => NestedCmdView::List(strs(v@)),
        }
    }
}

impl Clone for NestedCmd {
    fn clone(&self) -> (r: Self)
        ensures
            r@ == self@,
    {
        match self {
            NestedCmd::Bool(b) => NestedCmd::Bool(*b),
            NestedCmd::Str(s) => NestedCmd::Str(s.clone()),
            NestedCmd::List(v) => NestedCmd::List(clone_strings(v)),
        }
    }
}

impl Default for NestedCmd {
    fn default() -> (r: Self)
        ensures
            r@ == NestedCmdView::Bool(false),
    {
        NestedCmd::Bool(false)
    }
}

/// An extracted command-line option from a man page.
#[derive(Debug, PartialEq)]
pub struct CliOption {
    /// Help text for this option
    pub text: String,
    /// Short options (e.g. "-a")
    pub short: Vec<String>,
    /// Long options (e.g. "--all")
    pub long: Vec<String>,
    /// Whether the option expects an argument
    pub has_argument: HasArgument,
    /// Positional argument specification
    pub positional: Option<Positional>,
    /// Literal prefix sigil for a positional (e.g. "@" for `dig @server`)
    pub prefix: Option<String>,
    /// Whether this option can start a nested command
    pub nested_cmd: NestedCmd,
    /// Extraction metadata, as JSON text
    pub meta: Option<String>,
}

/// Model of [`CliOption`].
pub struct CliOptionView {
    pub text: Seq<char>,
    pub short: Seq<Seq<char>>,
    pub long: Seq<Seq<char>>,
    pub has_argument: HasArgumentView,
    pub positional: Option<PositionalView>,
    pub prefix: Option<Seq<char>>,
    pub nested_cmd: NestedCmdView,
    pub meta: Option<Seq<char>>,
}

impl View for CliOption {
    type V = CliOptionView;

    open spec fn view(&self) -> CliOptionView {
        CliOptionView {
            text: self.text@,
            short: strs(self.short@),
            long: strs(self.long@),
            has_argument: self.has_argument@,
            positional: opt_positional(self.positional),
            prefix: opt_str(self.prefix),
            nested_cmd: self.nested_cmd@,
            meta: opt_str(self.meta),
        }
    }
}

impl Clone for CliOption {
    fn clone(&self) -> (r: Self)
        ensures
            r@ == self@,
    {
        let positional = match &self.positional {
            Some(p) => Some(p.clone()),
            None => None,
        };
        CliOption {
            text: self.text.clone(),
            short: clone_strings(&self.short),
            long: clone_strings(&self.long),
            has_argument: self.has_argument.clone(),
            positional,
            prefix: clone_opt_string(&self.prefix),
            nested_cmd: self.nested_cmd.clone(),
            meta: clone_opt_string(&self.meta),
        }
    }
}

/// Every name of an option: its short names, then its long names.
pub open spec fn option_names(o: CliOptionView) -> Seq<Seq<char>> {
    o.short + o.long
}

/// The option expects an argument (`has_argument` is `true`).
pub open spec fn takes_argument(o: CliOptionView) -> bool {
    o.has_argument == HasArgumentView::Bool(true)
}

impl CliOption {
    /// All option names (short, then long).
    pub fn opts(&self) -> (r: Vec<String>)
        ensures
            strs(r@) == option_names(self@),
    {
        let mut out = clone_strings(&self.short);
        let mut i: usize = 0;
        while i < self.long.len()
            invariant
                i <= self.long@.len(),
                strs(out@) == strs(self.short@) + strs(self.long@).take(i as int),
            decreases self.long@.len() - i,
        {
            let ghost before = out@;
            out.push(self.long[i].clone());
            proof {
                assert(strs(out@) =~= strs(before).push(self.long@[i as int]@));
                assert(strs(self.long@).take(i + 1) =~= strs(self.long@).take(i as int).push(
                    self.long@[i as int]@,
                ));
            }
            i += 1;
        }
        proof {
            assert(strs(self.long@).take(self.long@.len() as int) =~= strs(self.long@));
        }
        out
    }

    /// True when `flag` is one of the option's names.
    pub fn matches_flag(&self, flag: &str) -> (r: bool)
        ensures
            r == option_names(self@).contains(flag@),
    {
        let names = self.opts();
        contains_str(&names, flag)
    }
}

/// Model of an optional option.
pub open spec fn opt_option(o: Option<CliOption>) -> Option<CliOptionView> {
    match o {
        Some(c) => Some(c@),
        None => None,
    }
}

/// Model of a vector of options.
pub open spec fn options_view(v: Seq<CliOption>) -> Seq<CliOptionView> {
    v.map_values(|o: CliOption| o@)
}

// ---------------------------------------------------------------------
// Manpages
// ---------------------------------------------------------------------

/// Metadata about the extraction.
#[derive(Debug, PartialEq)]
pub struct ExtractionMeta {
    /// Provider/model identifier
    pub model: Option<String>,
}

impl Clone for ExtractionMeta {
    fn clone(&self) -> (r: Self)
        ensures
            opt_str(r.model) == opt_str(self.model),
    {
        ExtractionMeta { model: clone_opt_string(&self.model) }
    }
}

impl Default for ExtractionMeta {
    fn default() -> (r: Self)
        ensures
            r.model is None,
    {
        ExtractionMeta { model: None }
    }
}

/// Model of an optional extraction metadata record.
pub open spec fn opt_meta(o: Option<ExtractionMeta>) -> Option<Option<Seq<char>>> {
    match o {
        Some(m) => Some(opt_str(m.model)),
        None => None,
    }
}

/// Model of an alias list.
pub open spec fn aliases_view(v: Seq<(String, i32)>) -> Seq<(Seq<char>, i32)> {
    v.map_values(|a: (String, i32)| (a.0@, a.1))
}

/// A processed man page with extracted options.
#[derive(Debug, PartialEq)]
pub struct ParsedManpage {
    /// Source path (e.g. "ubuntu/26.04/1/tar.1.gz")
    pub source: String,
    /// Command name (e.g. "tar")
    pub name: String,
    /// One-line synopsis
    pub synopsis: Option<String>,
    /// Extracted options
    pub options: Vec<CliOption>,
    /// Aliases with scores
    pub aliases: Vec<(String, i32)>,
    /// Allow matching options without a leading dash
    pub dashless_opts: bool,
    /// Subcommand names
    pub subcommands: Vec<String>,
    /// Manually updated flag
    pub updated: bool,
    /// Positional arguments can start a nested command
    pub nested_cmd: NestedCmd,
    /// Extractor identifier
    pub extractor: Option<String>,
    /// Extraction metadata
    pub extraction_meta: Option<ExtractionMeta>,
}

/// Model of [`ParsedManpage`].
pub struct ParsedManpageView {
    pub source: Seq<char>,
    pub name: Seq<char>,
    pub synopsis: Option<Seq<char>>,
    pub options: Seq<CliOptionView>,
    pub aliases: Seq<(Seq<char>, i32)>,
    pub dashless_opts: bool,
    pub subcommands: Seq<Seq<char>>,
    pub updated: bool,
    pub nested_cmd: NestedCmdView,
    pub extractor: Option<Seq<char>>,
    pub extraction_meta: Option<Option<Seq<char>>>,
}

impl View for ParsedManpage {
    type V = ParsedManpageView;

    open spec fn view(&self) -> ParsedManpageView {
        ParsedManpageView {
            source: self.source@,
            name: self.name@,
            synopsis: opt_str(self.synopsis),
            options: options_view(self.options@),
            aliases: aliases_view(self.aliases@),
            dashless_opts: self.dashless_opts,
            subcommands: strs(self.subcommands@),
            updated: self.updated,
            nested_cmd: self.nested_cmd@,
            extractor: opt_str(self.extractor),
            extraction_meta: opt_meta(self.extraction_meta),
        }
    }
}

/// Copy of a vector of options.
pub fn clone_options(v: &Vec<CliOption>) -> (r: Vec<CliOption>)
    ensures
        options_view(r@) == options_view(v@),
{
    let mut out: Vec<CliOption> = Vec::new();
    let mut i: usize = 0;
    while i < v.len()
        invariant
            i <= v@.len(),
            out@.len() == i,
            forall|k: int| 0 <= k < i ==> #[trigger] out@[k]@ == v@[k]@,
        decreases v@.len() - i,
    {
        out.push(v[i].clone());
        i += 1;
    }
    assert(options_view(out@) =~= options_view(v@));
    out
}

/// Copy of an alias list.
pub fn clone_aliases(v: &Vec<(String, i32)>) -> (r: Vec<(String, i32)>)
    ensures
        aliases_view(r@) == aliases_view(v@),
{
    let mut out: Vec<(String, i32)> = Vec::new();
    let mut i: usize = 0;
    while i < v.len()
        invariant
            i <= v@.len(),
            out@.len() == i,
            forall|k: int| 0 <= k < i ==> #[trigger] out@[k].0@ == v@[k].0@ && out@[k].1 == v@[k].1,
        decreases v@.len() - i,
    {
        let (name, score) = &v[i];
        out.push((name.clone(), *score));
        i += 1;
    }
    assert(aliases_view(out@) =~= aliases_view(v@));
    out
}

impl Clone for ParsedManpage {
    fn clone(&self) -> (r: Self)
        ensures
            r@ == self@,
    {
        let extraction_meta = match &self.extraction_meta {
            Some(m) => Some(m.clone()),
            None => None,
        };
        ParsedManpage {
            source: self.source.clone(),
            name: self.name.clone(),
            synopsis: clone_opt_string(&self.synopsis),
            options: clone_options(&self.options),
            aliases: clone_aliases(&self.aliases),
            dashless_opts: self.dashless_opts,
            subcommands: clone_strings(&self.subcommands),
            updated: self.updated,
            nested_cmd: self.nested_cmd.clone(),
            extractor: clone_opt_string(&self.extractor),
            extraction_meta,
        }
    }
}

/// The positional name an option declares, when it is a named positional
/// whose prefix presence is `prefixed`.
pub open spec fn positional_name(o: CliOptionView, prefixed: bool) -> Option<Seq<char>> {
    match o.positional {
        Some(PositionalView::Name(n)) => if (o.prefix is Some) == prefixed {
            Some(n)
        } else {
            None
        },
        _ => None,
    }
}

/// Distinct positional names, in the order of their first option.
pub open spec fn positional_names(opts: Seq<CliOptionView>, prefixed: bool) -> Seq<Seq<char>>
    decreases opts.len(),
{
    if opts.len() == 0 {
        Seq::empty()
    } else {
        let rest = positional_names(opts.drop_last(), prefixed);
        match positional_name(opts.last(), prefixed) {
            Some(n) => if rest.contains(n) {
                rest
            } else {
                rest.push(n)
            },
            None => rest,
        }
    }
}

/// Help texts of the options that declare positional `name`, in order.
pub open spec fn positional_texts(opts: Seq<CliOptionView>, name: Seq<char>, prefixed: bool) -> Seq<
    Seq<char>,
>
    decreases opts.len(),
{
    if opts.len() == 0 {
        Seq::empty()
    } else {
        let rest = positional_texts(opts.drop_last(), name, prefixed);
        if positional_name(opts.last(), prefixed) == Some(name) {
            rest.push(opts.last().text)
        } else {
            rest
        }
    }
}

/// Texts joined with `sep` between consecutive ones.
pub open spec fn join(parts: Seq<Seq<char>>, sep: Seq<char>) -> Seq<char>
    decreases parts.len(),
{
    if parts.len() == 0 {
        Seq::empty()
    } else if parts.len() == 1 {
        parts[0]
    } else {
        join(parts.drop_last(), sep) + sep + parts.last()
    }
}

/// The prefix of the first prefixed option that declares positional `name`
/// (empty when there is none).
pub open spec fn positional_prefix(opts: Seq<CliOptionView>, name: Seq<char>) -> Seq<char>
    decreases opts.len(),
{
    if opts.len() == 0 {
        Seq::empty()
    } else if positional_name(opts[0], true) == Some(name) {
        match opts[0].prefix {
            Some(p) => p,
            None => Seq::empty(),
        }
    } else {
        positional_prefix(opts.subrange(1, opts.len() as int), name)
    }
}

/// The first option that has `flag` among its names.
pub open spec fn first_option(opts: Seq<CliOptionView>, flag: Seq<char>) -> Option<CliOptionView>
    decreases opts.len(),
{
    if opts.len() == 0 {
        None
    } else if option_names(opts[0]).contains(flag) {
        Some(opts[0])
    } else {
        first_option(opts.subrange(1, opts.len() as int), flag)
    }
}

/// Paragraph separator of merged help texts.
pub open spec fn paragraph_sep() -> Seq<char> {
    seq!['\n', '\n']
}

impl ParsedManpage {
    /// Distinct positional names of the options whose prefix presence is
    /// `prefixed`, in document order.
    fn positional_name_list(&self, prefixed: bool) -> (r: Vec<String>)
        ensures
            strs(r@) == positional_names(self@.options, prefixed),
    {
        let ghost opts = self@.options;
        let mut names: Vec<String> = Vec::new();
        let mut i: usize = 0;
        while i < self.options.len()
            invariant
                i <= self.options@.len(),
                opts == options_view(self.options@),
                strs(names@) == positional_names(opts.take(i as int), prefixed),
            decreases self.options@.len() - i,
        {
            let opt = &self.options[i];
            proof {
                assert(opts.take(i + 1).drop_last() =~= opts.take(i as int));
                assert(opts.take(i + 1).last() == opt@);
            }
            match &opt.positional {
                Some(Positional::Name(name)) => {
                    let has_prefix = match &opt.prefix {
                        Some(_) => true,
                        None => false,
                    };
                    if has_prefix == prefixed && !contains_str(&names, name.as_str()) {
                        let ghost before = names@;
                        names.push(name.clone());
                        proof {
                            assert(strs(names@) =~= strs(before).push(name@));
                        }
                    }
                },
                _ => {},
            }
            i += 1;
        }
        proof {
            assert(opts.take(self.options@.len() as int) =~= opts);
        }
        names
    }

    /// The help texts of the options declaring positional `name`, joined
    /// with blank lines.
    fn merged_text(&self, name: &str, prefixed: bool) -> (r: String)
        ensures
            r@ == join(positional_texts(self@.options, name@, prefixed), paragraph_sep()),
    {
        let ghost opts = self@.options;
        let mut out = String::new();
        let mut any = false;
        let mut i: usize = 0;
        while i < self.options.len()
            invariant
                i <= self.options@.len(),
                opts == options_view(self.options@),
                out@ == join(positional_texts(opts.take(i as int), name@, prefixed), paragraph_sep()),
                any == (positional_texts(opts.take(i as int), name@, prefixed).len() > 0),
            decreases self.options@.len() - i,
        {
            let opt = &self.options[i];
            proof {
                assert(opts.take(i + 1).drop_last() =~= opts.take(i as int));
                assert(opts.take(i + 1).last() == opt@);
            }
            let hit = match &opt.positional {
                Some(Positional::Name(n)) => {
                    let has_prefix = match &opt.prefix {
                        Some(_) => true,
                        None => false,
                    };
                    has_prefix == prefixed && str_eq(n.as_str(), name)
                },
                _ => false,
            };
            if hit {
                let ghost before = positional_texts(opts.take(i as int), name@, prefixed);
                if any {
                    push_str(&mut out, "\n\n");
                    proof {
                        reveal_strlit("\n\n");
                        assert(before.push(opt@.text).drop_last() =~= before);
                    }
                }
                push_str(&mut out, opt.text.as_str());
                proof {
                    if !any {
                        assert(before.len() == 0);
                        assert(out@ =~= opt@.text);
                    } else {
                        assert(before.push(opt@.text).drop_last() =~= before);
                    }
                }
                any = true;
            }
            i += 1;
        }
        proof {
            assert(opts.take(self.options@.len() as int) =~= opts);
        }
        out
    }

    /// The prefix of the first prefixed option declaring positional `name`.
    fn first_prefix(&self, name: &str) -> (r: String)
        ensures
            r@ == positional_prefix(self@.options, name@),
    {
        let ghost opts = self@.options;
        proof {
            assert(opts.subrange(0, opts.len() as int) =~= opts);
        }
        let mut i: usize = 0;
        while i < self.options.len()
            invariant
                i <= self.options@.len(),
                opts == options_view(self.options@),
                positional_prefix(opts, name@) == positional_prefix(
                    opts.subrange(i as int, opts.len() as int),
                    name@,
                ),
            decreases self.options@.len() - i,
        {
            let opt = &self.options[i];
            let ghost rest = opts.subrange(i as int, opts.len() as int);
            proof {
                assert(rest[0] == opt@);
                assert(rest.subrange(1, rest.len() as int) =~= opts.subrange(i + 1, opts.len() as int));
            }
            match (&opt.positional, &opt.prefix) {
                (Some(Positional::Name(n)), Some(p)) => {
                    if str_eq(n.as_str(), name) {
                        return p.clone();
                    }
                },
                _ => {},
            }
            i += 1;
        }
        String::new()
    }

    /// Positional options without a prefix, in document order: each name
    /// with the merged help text of its options.
    pub fn positionals(&self) -> (r: Vec<(String, String)>)
        ensures
            r@.len() == positional_names(self@.options, false).len(),
            forall|i: int|
                0 <= i < r@.len() ==> (#[trigger] r@[i]).0@ == positional_names(self@.options, false)[i]
                    && r@[i].1@ == join(
                    positional_texts(self@.options, positional_names(self@.options, false)[i], false),
                    paragraph_sep(),
                ),
    {
        let names = self.positional_name_list(false);
        let mut out: Vec<(String, String)> = Vec::new();
        let mut i: usize = 0;
        while i < names.len()
            invariant
                i <= names@.len(),
                strs(names@) == positional_names(self@.options, false),
                out@.len() == i,
                forall|k: int|
                    0 <= k < i ==> (#[trigger] out@[k]).0@ == strs(names@)[k] && out@[k].1@ == join(
                        positional_texts(self@.options, strs(names@)[k], false),
                        paragraph_sep(),
                    ),
            decreases names@.len() - i,
        {
            let text = self.merged_text(names[i].as_str(), false);
            out.push((names[i].clone(), text));
            i += 1;
        }
        out
    }

    /// Positional options with a prefix, in document order: each name with
    /// its prefix and the merged help text of its options.
    pub fn prefixed_positionals(&self) -> (r: Vec<(String, (String, String))>)
        ensures
            r@.len() == positional_names(self@.options, true).len(),
            forall|i: int|
                0 <= i < r@.len() ==> (#[trigger] r@[i]).0@ == positional_names(self@.options, true)[i]
                    && r@[i].1.0@ == positional_prefix(
                    self@.options,
                    positional_names(self@.options, true)[i],
                ) && r@[i].1.1@ == join(
                    positional_texts(self@.options, positional_names(self@.options, true)[i], true),
                    paragraph_sep(),
                ),
    {
        let names = self.positional_name_list(true);
        let mut out: Vec<(String, (String, String))> = Vec::new();
        let mut i: usize = 0;
        while i < names.len()
            invariant
                i <= names@.len(),
                strs(names@) == positional_names(self@.options, true),
                out@.len() == i,
                forall|k: int|
                    0 <= k < i ==> (#[trigger] out@[k]).0@ == strs(names@)[k] && out@[k].1.0@
                        == positional_prefix(self@.options, strs(names@)[k]) && out@[k].1.1@ == join(
                        positional_texts(self@.options, strs(names@)[k], true),
                        paragraph_sep(),
                    ),
            decreases names@.len() - i,
        {
            let prefix = self.first_prefix(names[i].as_str());
            let text = self.merged_text(names[i].as_str(), true);
            out.push((names[i].clone(), (prefix, text)));
            i += 1;
        }
        out
    }

    /// The first option that has `flag` among its names.
    pub fn find_option(&self, flag: &str) -> (r: Option<&CliOption>)
        ensures
            match r {
                Some(o) => first_option(self@.options, flag@) == Some(o@),
                None => first_option(self@.options, flag@) is None,
            },
    {
        let ghost opts = self@.options;
        proof {
            assert(opts.subrange(0, opts.len() as int) =~= opts);
        }
        let mut i: usize = 0;
        while i < self.options.len()
            invariant
                i <= self.options@.len(),
                opts == options_view(self.options@),
                first_option(opts, flag@) == first_option(opts.subrange(i as int, opts.len() as int), flag@),
            decreases self.options@.len() - i,
        {
            let opt = &self.options[i];
            let ghost rest = opts.subrange(i as int, opts.len() as int);
            proof {
                assert(rest[0] == opt@);
                assert(rest.subrange(1, rest.len() as int) =~= opts.subrange(i + 1, opts.len() as int));
            }
            if opt.matches_flag(flag) {
                return Some(opt);
            }
            i += 1;
        }
        None
    }
}

// ---------------------------------------------------------------------
// Explanation results
// ---------------------------------------------------------------------

/// What a match result explains, with the option or positional it found.
#[derive(Debug, PartialEq)]
pub enum DebugInfo {
    /// A token with no explanation
    Unknown,
    /// The command's synopsis
    Synopsis,
    /// A call to a function defined earlier in the input
    FunctionCall,
    /// A reserved word
    ReservedWord,
    /// A list operator
    Operator,
    /// A pipe
    Pipe,
    /// A variable assignment
    Assignment,
    /// A redirection
    Redirect,
    /// An option of the command
    OptionMatch {
        /// The option's short names
        short: Vec<String>,
        /// The option's long names
        long: Vec<String>,
        /// Whether the option expects an argument
        has_argument: HasArgument,
    },
    /// A positional argument of the command
    Argument {
        /// Positional name
        positional: String,
        /// Prefix sigil of a prefixed positional
        prefix: Option<String>,
    },
}

/// Model of [`DebugInfo`].
pub enum DebugView {
    Unknown,
    Synopsis,
    FunctionCall,
    ReservedWord,
    Operator,
    Pipe,
    Assignment,
    Redirect,
    OptionMatch { short: Seq<Seq<char>>, long: Seq<Seq<char>>, has_argument: HasArgumentView },
    Argument { positional: Seq<char>, prefix: Option<Seq<char>> },
}

impl View for DebugInfo {
    type V = DebugView;

    open spec fn view(&self) -> DebugView {
        match self {
            DebugInfo::Unknown => DebugView::Unknown,
            DebugInfo::Synopsis => DebugView::Synopsis,
            DebugInfo::FunctionCall => DebugView::FunctionCall,
            DebugInfo::ReservedWord => DebugView::ReservedWord,
            DebugInfo::Operator => DebugView::Operator,
            DebugInfo::Pipe => DebugView::Pipe,
            DebugInfo::Assignment => DebugView::Assignment,
            DebugInfo::Redirect => DebugView::Redirect,
            DebugInfo::OptionMatch { short, long, has_argument } => DebugView::OptionMatch {
                short: strs(short@),
                long: strs(long@),
                has_argument: has_argument@,
            },
            DebugInfo::Argument { positional, prefix } => DebugView::Argument {
                positional: positional@,
                prefix: opt_str(*prefix),
            },
        }
    }
}

impl Clone for DebugInfo {
    fn clone(&self) -> (r: Self)
        ensures
            r@ == self@,
    {
        match self {
            DebugInfo::Unknown => DebugInfo::Unknown,
            DebugInfo::Synopsis => DebugInfo::Synopsis,
            DebugInfo::FunctionCall => DebugInfo::FunctionCall,
            DebugInfo::ReservedWord => DebugInfo::ReservedWord,
            DebugInfo::Operator => DebugInfo::Operator,
            DebugInfo::Pipe => DebugInfo::Pipe,
            DebugInfo::Assignment => DebugInfo::Assignment,
            DebugInfo::Redirect => DebugInfo::Redirect,
            DebugInfo::OptionMatch { short, long, has_argument } => DebugInfo::OptionMatch {
                short: clone_strings(short),
                long: clone_strings(long),
                has_argument: has_argument.clone(),
            },
            DebugInfo::Argument { positional, prefix } => DebugInfo::Argument {
                positional: positional.clone(),
                prefix: clone_opt_string(prefix),
            },
        }
    }
}

/// Model of an optional debug record.
pub open spec fn opt_debug(o: Option<DebugInfo>) -> Option<DebugView> {
    match o {
        Some(d) => Some(d@),
        None => None,
    }
}

/// Result of explaining a command token.
#[derive(Debug, PartialEq)]
pub struct MatchResult {
    /// Start position in the input (bytes)
    pub start: usize,
    /// End position in the input (bytes, exclusive)
    pub end: usize,
    /// Help text, or `None` when unknown
    pub text: Option<String>,
    /// The matched portion of the input
    pub match_text: Option<String>,
    /// What the result explains
    pub debug_info: Option<DebugInfo>,
}

/// Model of [`MatchResult`].
pub struct MatchResultView {
    pub start: usize,
    pub end: usize,
    pub text: Option<Seq<char>>,
    pub match_text: Option<Seq<char>>,
    pub debug_info: Option<DebugView>,
}

impl View for MatchResult {
    type V = MatchResultView;

    open spec fn view(&self) -> MatchResultView {
        MatchResultView {
            start: self.start,
            end: self.end,
            text: opt_str(self.text),
            match_text: opt_str(self.match_text),
            debug_info: opt_debug(self.debug_info),
        }
    }
}

impl Clone for MatchResult {
    fn clone(&self) -> (r: Self)
        ensures
            r@ == self@,
    {
        let debug_info = match &self.debug_info {
            Some(d) => Some(d.clone()),
            None => None,
        };
        MatchResult {
            start: self.start,
            end: self.end,
            text: clone_opt_string(&self.text),
            match_text: clone_opt_string(&self.match_text),
            debug_info,
        }
    }
}

impl MatchResult {
    /// True when the match has no help text.
    pub fn is_unknown(&self) -> (r: bool)
        ensures
            r == (self.text is None),
    {
        match &self.text {
            Some(_) => false,
            None => true,
        }
    }
}

/// Model of a vector of results.
pub open spec fn results_view(v: Seq<MatchResult>) -> Seq<MatchResultView> {
    v.map_values(|m: MatchResult| m@)
}

/// Model of a vector of manpages.
pub open spec fn pages_view(v: Seq<ParsedManpage>) -> Seq<ParsedManpageView> {
    v.map_values(|m: ParsedManpage| m@)
}

/// Model of an optional manpage.
pub open spec fn opt_page(o: Option<ParsedManpage>) -> Option<ParsedManpageView> {
    match o {
        Some(m) => Some(m@),
        None => None,
    }
}

/// A group of match results (one per command, plus the shell group).
#[derive(Debug, PartialEq)]
pub struct MatchGroup {
    /// Group name ("shell", "command0", ...)
    pub name: String,
    /// Match results in this group
    pub results: Vec<MatchResult>,
    /// Manpage of the command
    pub manpage: Option<ParsedManpage>,
    /// Alternative manpages
    pub suggestions: Vec<ParsedManpage>,
    /// Error when no manpage was found
    pub error: Option<String>,
    /// Next positional argument to consume
    pub positional_index: usize,
}

/// Model of [`MatchGroup`].
pub struct MatchGroupView {
    pub name: Seq<char>,
    pub results: Seq<MatchResultView>,
    pub manpage: Option<ParsedManpageView>,
    pub suggestions: Seq<ParsedManpageView>,
    pub error: Option<Seq<char>>,
    pub positional_index: usize,
}

impl View for MatchGroup {
    type V = MatchGroupView;

    open spec fn view(&self) -> MatchGroupView {
        MatchGroupView {
            name: self.name@,
            results: results_view(self.results@),
            manpage: opt_page(self.manpage),
            suggestions: pages_view(self.suggestions@),
            error: opt_str(self.error),
            positional_index: self.positional_index,
        }
    }
}

/// Copy of a vector of results.
pub fn clone_results(v: &Vec<MatchResult>) -> (r: Vec<MatchResult>)
    ensures
        results_view(r@) == results_view(v@),
{
    let mut out: Vec<MatchResult> = Vec::new();
    let mut i: usize = 0;
    while i < v.len()
        invariant
            i <= v@.len(),
            out@.len() == i,
            forall|k: int| 0 <= k < i ==> #[trigger] out@[k]@ == v@[k]@,
        decreases v@.len() - i,
    {
        out.push(v[i].clone());
        i += 1;
    }
    assert(results_view(out@) =~= results_view(v@));
    out
}

/// Copy of a vector of manpages.
pub fn clone_pages(v: &Vec<ParsedManpage>) -> (r: Vec<ParsedManpage>)
    ensures
        pages_view(r@) == pages_view(v@),
{
    let mut out: Vec<ParsedManpage> = Vec::new();
    let mut i: usize = 0;
    while i < v.len()
        invariant
            i <= v@.len(),
            out@.len() == i,
            forall|k: int| 0 <= k < i ==> #[trigger] out@[k]@ == v@[k]@,
        decreases v@.len() - i,
    {
        out.push(v[i].clone());
        i += 1;
    }
    assert(pages_view(out@) =~= pages_view(v@));
    out
}

impl Clone for MatchGroup {
    fn clone(&self) -> (r: Self)
        ensures
            r@ == self@,
    {
        let manpage = match &self.manpage {
            Some(m) => Some(m.clone()),
            None => None,
        };
        MatchGroup {
            name: self.name.clone(),
            results: clone_results(&self.results),
            manpage,
            suggestions: clone_pages(&self.suggestions),
            error: clone_opt_string(&self.error),
            positional_index: self.positional_index,
        }
    }
}

/// Word expansion information.
#[derive(Debug, PartialEq)]
pub struct Expansion {
    /// Start position (bytes)
    pub start: usize,
    /// End position (bytes, exclusive)
    pub end: usize,
    /// "substitution", "tilde", "parameter-digits" or "parameter-param"
    pub kind: String,
}

impl Clone for Expansion {
    fn clone(&self) -> (r: Self)
        ensures
            r.start == self.start && r.end == self.end && r.kind@ == self.kind@,
    {
        Expansion { start: self.start, end: self.end, kind: self.kind.clone() }
    }
}

/// Complete explanation result.
#[derive(Debug, PartialEq)]
pub struct ExplainResult {
    /// All match groups
    pub groups: Vec<MatchGroup>,
    /// Expansions found in the words
    pub expansions: Vec<Expansion>,
}

// ---------------------------------------------------------------------
// Laws
// ---------------------------------------------------------------------

/// Law: positional names come out once each.
pub proof fn lemma_positional_names_distinct(opts: Seq<CliOptionView>, prefixed: bool)
    ensures
        positional_names(opts, prefixed).no_duplicates(),
    decreases opts.len(),
{
    if opts.len() > 0 {
        lemma_positional_names_distinct(opts.drop_last(), prefixed);
    }
}

/// Option `b` of `opts` declares positional `n`.
pub open spec fn declares(opts: Seq<CliOptionView>, b: int, n: Seq<char>, prefixed: bool) -> bool {
    0 <= b < opts.len() && positional_name(opts[b], prefixed) == Some(n)
}

/// Some option before option `b` declares positional `n`.
pub open spec fn declared_before(opts: Seq<CliOptionView>, n: Seq<char>, b: int, prefixed: bool) -> bool {
    exists|a: int| a < b && #[trigger] declares(opts, a, n, prefixed)
}

/// Of two names of `names`, the earlier one is declared by an option that
/// comes before every option declaring the later one.
pub open spec fn in_document_order(opts: Seq<CliOptionView>, names: Seq<Seq<char>>, prefixed: bool) -> bool {
    forall|i: int, j: int, b: int|
        0 <= i < j < names.len() && #[trigger] declares(opts, b, names[j], prefixed)
            ==> #[trigger] declared_before(opts, names[i], b, prefixed)
}

/// One step of the document-order law: the new last option keeps the order.
proof fn lemma_document_order_step(opts: Seq<CliOptionView>, prefixed: bool, i: int, j: int, b: int)
    requires
        opts.len() > 0,
        in_document_order(opts.drop_last(), positional_names(opts.drop_last(), prefixed), prefixed),
        0 <= i < j < positional_names(opts, prefixed).len(),
        declares(opts, b, positional_names(opts, prefixed)[j], prefixed),
    ensures
        declared_before(opts, positional_names(opts, prefixed)[i], b, prefixed),
{
    let init = opts.drop_last();
    let rest = positional_names(init, prefixed);
    let names = positional_names(opts, prefixed);
    assert(names[i] == rest[i]);
    lemma_positional_names_complete(init, prefixed, rest[i]);
    assert(rest.contains(rest[i]));
    let a0 = choose|a: int| 0 <= a < init.len() && positional_name(#[trigger] init[a], prefixed) == Some(rest[i]);
    assert(opts[a0] == init[a0]);
    assert(declares(opts, a0, names[i], prefixed));
    if j < rest.len() {
        assert(names[j] == rest[j]);
        if b < init.len() {
            assert(init[b] == opts[b]);
            assert(declares(init, b, rest[j], prefixed));
            assert(declared_before(init, rest[i], b, prefixed));
            let a = choose|a: int| a < b && #[trigger] declares(init, a, rest[i], prefixed);
            assert(opts[a] == init[a]);
            assert(declares(opts, a, names[i], prefixed));
        } else {
            assert(a0 < b);
        }
    } else {
        let m = names[j];
        assert(!rest.contains(m));
        lemma_positional_names_complete(init, prefixed, m);
        if b < init.len() {
            assert(init[b] == opts[b]);
            assert(positional_name(init[b], prefixed) == Some(m));
            assert(false);
        }
        assert(a0 < b);
    }
}

/// Law: positional names come out in document order. Of two listed names,
/// the earlier one is declared before any option that declares the later
/// one: its first declaring option comes first.
pub proof fn lemma_positional_names_in_document_order(opts: Seq<CliOptionView>, prefixed: bool)
    ensures
        in_document_order(opts, positional_names(opts, prefixed), prefixed),
    decreases opts.len(),
{
    if opts.len() > 0 {
        lemma_positional_names_in_document_order(opts.drop_last(), prefixed);
        let names = positional_names(opts, prefixed);
        assert forall|i: int, j: int, b: int|
            0 <= i < j < names.len() && #[trigger] declares(opts, b, names[j], prefixed) implies #[trigger] declared_before(
            opts,
            names[i],
            b,
            prefixed,
        ) by {
            lemma_document_order_step(opts, prefixed, i, j, b);
        }
    }
}

/// Law: every positional name is declared by some option, and every
/// declared name is listed.
pub proof fn lemma_positional_names_complete(opts: Seq<CliOptionView>, prefixed: bool, n: Seq<char>)
    ensures
        positional_names(opts, prefixed).contains(n) <==> exists|i: int|
            0 <= i < opts.len() && positional_name(#[trigger] opts[i], prefixed) == Some(n),
    decreases opts.len(),
{
    if opts.len() > 0 {
        let init = opts.drop_last();
        let rest = positional_names(init, prefixed);
        lemma_positional_names_complete(init, prefixed, n);
        if exists|i: int| 0 <= i < opts.len() && positional_name(#[trigger] opts[i], prefixed) == Some(n) {
            let i = choose|i: int| 0 <= i < opts.len() && positional_name(#[trigger] opts[i], prefixed) == Some(n);
            if i < init.len() {
                assert(init[i] == opts[i]);
            }
        }
        if exists|i: int| 0 <= i < init.len() && positional_name(#[trigger] init[i], prefixed) == Some(n) {
            let i = choose|i: int| 0 <= i < init.len() && positional_name(#[trigger] init[i], prefixed) == Some(n);
            assert(opts[i] == init[i]);
        }
        match positional_name(opts.last(), prefixed) {
            Some(m) => {
                if !rest.contains(m) {
                    if rest.push(m).contains(n) {
                        let k = choose|k: int| 0 <= k < rest.push(m).len() && rest.push(m)[k] == n;
                        if k < rest.len() {
                            assert(rest[k] == n);
                        }
                    }
                    if m == n {
                        assert(rest.push(m)[rest.len() as int] == n);
                    }
                    if rest.contains(n) {
                        let k = choose|k: int| 0 <= k < rest.len() && rest[k] == n;
                        assert(rest.push(m)[k] == n);
                    }
                }
                assert(opts[opts.len() - 1] == opts.last());
            },
            None => {
                assert(opts[opts.len() - 1] == opts.last());
            },
        }
    }
}

/// Law: the option found for a flag has that flag among its names, and no
/// earlier option does.
pub proof fn lemma_first_option(opts: Seq<CliOptionView>, flag: Seq<char>)
    ensures
        match first_option(opts, flag) {
            Some(o) => exists|i: int|
                0 <= i < opts.len() && opts[i] == o && option_names(o).contains(flag) && forall|j: int|
                    0 <= j < i ==> !option_names(#[trigger] opts[j]).contains(flag),
            None => forall|j: int| 0 <= j < opts.len() ==> !option_names(#[trigger] opts[j]).contains(flag),
        },
    decreases opts.len(),
{
    if opts.len() > 0 && !option_names(opts[0]).contains(flag) {
        let rest = opts.subrange(1, opts.len() as int);
        lemma_first_option(rest, flag);
        match first_option(rest, flag) {
            Some(o) => {
                let i = choose|i: int|
                    0 <= i < rest.len() && rest[i] == o && option_names(o).contains(flag) && forall|j: int|
                        0 <= j < i ==> !option_names(#[trigger] rest[j]).contains(flag);
                assert(opts[i + 1] == o);
                assert forall|j: int| 0 <= j < i + 1 implies !option_names(#[trigger] opts[j]).contains(flag) by {
                    if j > 0 {
                        assert(opts[j] == rest[j - 1]);
                    }
                }
            },
            None => {
                assert forall|j: int| 0 <= j < opts.len() implies !option_names(#[trigger] opts[j]).contains(flag) by {
                    if j > 0 {
                        assert(opts[j] == rest[j - 1]);
                    }
                }
            },
        }
    } else if opts.len() > 0 {
        assert(opts[0] == opts[0]);
    }
}

} // verus!
