//! SDK components (`.slcc`) and the component references of a project.

use vstd::prelude::*;

use crate::definitions::{
    ConfigFile,
    Conflict,
    Define,
    Feature,
    IncludeEntry,
    Instantiable,
    Library,
    OtherFile,
    Quality,
    Recommendation,
    Require,
    SourceFile,
    TemplateContribution,
    TemplateFile,
    ToolchainSetting,
};

use crate::text::{chars_of, chars_occur_at, find_chars, find_from, lemma_find_from, push_char, push_chars, starts_with, string_from, string_of};

verus! {

broadcast use vstd::string::group_string_axioms;

/// `!!omap`
pub open spec fn omap_tag() -> Seq<char> {
    seq!['!', '!', 'o', 'm', 'a', 'p']
}

/// A line without a final carriage return.
pub open spec fn strip_cr(l: Seq<char>) -> Seq<char> {
    if l.len() > 0 && l.last() == '\r' {
        l.drop_last()
    } else {
        l
    }
}

/// The lines of `s[pos..]`: split at each newline (dropping a carriage
/// return before it), with no empty line after a final newline.
pub open spec fn lines_from(s: Seq<char>, pos: int) -> Seq<Seq<char>>
    decreases s.len() - pos,
{
    if pos < 0 || pos >= s.len() {
        Seq::empty()
    } else {
        match find_from(s, seq!['\n'], pos) {
            Some(i) => {
                proof {
                    lemma_find_from(s, seq!['\n'], pos);
                }
                seq![strip_cr(s.subrange(pos, i))] + lines_from(s, i + 1)
            },
            None => seq![s.subrange(pos, s.len() as int)],
        }
    }
}

/// A line without its first two characters.
pub open spec fn drop_two(l: Seq<char>) -> Seq<char> {
    l.skip(if l.len() < 2 {
        l.len() as int
    } else {
        2
    })
}

/// The lines joined with newlines.
pub open spec fn join_lines(ls: Seq<Seq<char>>) -> Seq<char>
    decreases ls.len(),
{
    if ls.len() == 0 {
        Seq::empty()
    } else if ls.len() == 1 {
        ls[0]
    } else {
        join_lines(ls.drop_last()) + seq!['\n'] + ls.last()
    }
}

/// A component file in the `!!omap` ordered-map form turned into a plain
/// mapping: the tag line is dropped and each further line loses its
/// two-character list prefix. Other text is unchanged.
pub open spec fn spec_strip_omap(data: Seq<char>) -> Seq<char> {
    if starts_with(data, omap_tag()) {
        join_lines(lines_from(data, 0).skip(1).map_values(|l: Seq<char>| drop_two(l)))
    } else {
        data
    }
}

/// Turns a component file in the `!!omap` form into a plain mapping.
pub fn strip_omap(data: &str) -> (r: String)
    ensures
        r@ == spec_strip_omap(data@),
{
    let v = chars_of(data);
    let tag: Vec<char> = vec!['!', '!', 'o', 'm', 'a', 'p'];
    assert(tag@ =~= omap_tag());
    if !chars_occur_at(&v, &tag, 0) {
        return string_from(data);
    }
    let nl: Vec<char> = vec!['\n'];
    assert(nl@ =~= seq!['\n']);
    let mut lines: Vec<Vec<char>> = Vec::new();
    let mut pos: usize = 0;
    while pos < v.len()
        invariant
            pos <= v@.len(),
            nl@ == seq!['\n'],
            lines@.map_values(|l: Vec<char>| l@) + lines_from(v@, pos as int) == lines_from(v@, 0),
        decreases v@.len() - pos,
    {
        proof {
            lemma_find_from(v@, seq!['\n'], pos as int);
        }
        let ghost before = lines@.map_values(|l: Vec<char>| l@);
        match find_chars(&v, &nl, pos) {
            Some(i) => {
                let end = if i > pos && v[i - 1] == '\r' {
                    i - 1
                } else {
                    i
                };
                let mut line: Vec<char> = Vec::new();
                let mut k = pos;
                while k < end
                    invariant
                        pos <= k <= end <= v@.len(),
                        line@ == v@.subrange(pos as int, k as int),
                    decreases end - k,
                {
                    line.push(v[k]);
                    assert(line@ =~= v@.subrange(pos as int, k + 1));
                    k = k + 1;
                }
                assert(line@ =~= strip_cr(v@.subrange(pos as int, i as int)));
                lines.push(line);
                assert(lines@.map_values(|l: Vec<char>| l@) =~= before.push(strip_cr(v@.subrange(pos as int, i as int))));
                assert(lines_from(v@, pos as int) =~= seq![strip_cr(v@.subrange(pos as int, i as int))] + lines_from(v@, i + 1));
                pos = i + 1;
            },
            None => {
                let mut line: Vec<char> = Vec::new();
                let mut k = pos;
                while k < v.len()
                    invariant
                        pos <= k <= v@.len(),
                        line@ == v@.subrange(pos as int, k as int),
                    decreases v@.len() - k,
                {
                    line.push(v[k]);
                    assert(line@ =~= v@.subrange(pos as int, k + 1));
                    k = k + 1;
                }
                lines.push(line);
                assert(lines@.map_values(|l: Vec<char>| l@) =~= before.push(v@.subrange(pos as int, v@.len() as int)));
                assert(lines_from(v@, pos as int) =~= seq![v@.subrange(pos as int, v@.len() as int)]);
                assert(lines_from(v@, v@.len() as int) =~= Seq::<Seq<char>>::empty());
                pos = v.len();
            },
        }
    }
    let ghost all = lines@.map_values(|l: Vec<char>| l@);
    assert(all =~= lines_from(v@, 0));
    let ghost body = all.skip(1).map_values(|l: Seq<char>| drop_two(l));
    let mut out = String::new();
    let mut k: usize = 1;
    assert(body.take(0) =~= Seq::<Seq<char>>::empty());
    while k < lines.len()
        invariant
            1 <= k,
            k <= lines@.len() || lines@.len() == 0,
            all == lines@.map_values(|l: Vec<char>| l@),
            body == all.skip(1).map_values(|l: Seq<char>| drop_two(l)),
            out@ == join_lines(body.take(k - 1)),
        decreases lines@.len() - k,
    {
        let line = &lines[k];
        let cut: usize = if line.len() < 2 {
            line.len()
        } else {
            2
        };
        let ghost prev = out@;
        if k > 1 {
            push_char(&mut out, '\n');
        }
        push_chars(&mut out, line, cut, line.len());
        proof {
            assert(all[k as int] == line@);
            assert(body[k - 1] == drop_two(line@));
            assert(line@.subrange(cut as int, line@.len() as int) =~= drop_two(line@));
            let t1 = body.take(k as int);
            assert(t1.drop_last() =~= body.take(k - 1));
            assert(t1.last() == body[k - 1]);
            if k == 1 {
                assert(t1.len() == 1);
                assert(out@ =~= t1[0]);
            }
        }
        k = k + 1;
    }
    proof {
        if lines@.len() > 0 {
            assert(body.take(body.len() as int) =~= body);
            assert(k == lines@.len());
        } else {
            assert(body =~= Seq::<Seq<char>>::empty());
        }
    }
    out
}

/// A component as its file declares it.
#[derive(Debug)]
pub struct ComponentRaw {
    /// The component id (`id`, or the older `name`).
    pub id: String,
    pub quality: Option<Quality>,
    pub root_path: Option<String>,
    pub component_root_path: Option<String>,
    pub instantiable: Option<Instantiable>,
    pub source: Option<Vec<SourceFile>>,
    pub includes: Option<Vec<IncludeEntry>>,
    pub config_file: Option<Vec<ConfigFile>>,
    pub define: Option<Vec<Define>>,
    pub requires: Option<Vec<Require>>,
    pub provides: Option<Vec<Feature>>,
    pub conflicts: Option<Vec<Conflict>>,
    pub recommends: Option<Vec<Recommendation>>,
    pub library: Option<Vec<Library>>,
    pub template_file: Option<Vec<TemplateFile>>,
    pub template_contribution: Option<Vec<TemplateContribution>>,
    pub toolchain_settings: Option<Vec<ToolchainSetting>>,
    pub other_file: Option<Vec<OtherFile>>,
}

#[derive(Debug)]
pub struct Component {
    pub id: String,
    pub quality: Option<Quality>,
    pub root_path: Option<String>,
    pub sdk_root: String,
    pub instantiable: Option<Instantiable>,
    pub source: Option<Vec<SourceFile>>,
    pub includes: Option<Vec<IncludeEntry>>,
    pub config_file: Option<Vec<ConfigFile>>,
    pub define: Option<Vec<Define>>,
    pub requires: Option<Vec<Require>>,
    pub provides: Option<Vec<Feature>>,
    pub conflicts: Option<Vec<Conflict>>,
    pub recommends: Option<Vec<Recommendation>>,
    pub library: Option<Vec<Library>>,
    pub template_file: Option<Vec<TemplateFile>>,
    pub template_contribution: Option<Vec<TemplateContribution>>,
    pub toolchain_settings: Option<Vec<ToolchainSetting>>,
    pub other_file: Option<Vec<OtherFile>>,
}

impl Component {
    /// The component that a declaration describes, located in the SDK at
    /// `sdk_root`: its root path is `component_root_path` when given, else
    /// `root_path`; every other entry is taken as declared.
    pub fn from_raw(raw: ComponentRaw, sdk_root: String) -> (r: Self)
        ensures
            r.id == raw.id,
            r.quality == raw.quality,
            r.root_path == (if raw.component_root_path is Some {
                raw.component_root_path
            } else {
                raw.root_path
            }),
            r.sdk_root == sdk_root,
            r.instantiable == raw.instantiable,
            r.source == raw.source,
            r.includes == raw.includes,
            r.config_file == raw.config_file,
            r.define == raw.define,
            r.requires == raw.requires,
            r.provides == raw.provides,
            r.conflicts == raw.conflicts,
            r.recommends == raw.recommends,
            r.library == raw.library,
            r.template_file == raw.template_file,
            r.template_contribution == raw.template_contribution,
            r.toolchain_settings == raw.toolchain_settings,
            r.other_file == raw.other_file,
    {
        let root_path = match raw.component_root_path {
            Some(p) => Some(p),
            None => raw.root_path,
        };
        Component {
            id: raw.id,
            quality: raw.quality,
            root_path,
            sdk_root,
            instantiable: raw.instantiable,
            source: raw.source,
            includes: raw.includes,
            config_file: raw.config_file,
            define: raw.define,
            requires: raw.requires,
            provides: raw.provides,
            conflicts: raw.conflicts,
            recommends: raw.recommends,
            library: raw.library,
            template_file: raw.template_file,
            template_contribution: raw.template_contribution,
            toolchain_settings: raw.toolchain_settings,
            other_file: raw.other_file,
        }
    }
}

/// A `component:` entry in a `.slcp`
#[derive(Debug)]
pub struct ComponentId {
    pub id: String,
    // Instance names for instantiable components
    pub instance: Option<Vec<String>>,
    // SDK extension that supplies this component
    pub from: Option<String>,
    pub condition: Option<Vec<String>>,
}

#[derive(Debug)]
pub struct ComponentPath {
    pub path: String,
}

} // verus!
