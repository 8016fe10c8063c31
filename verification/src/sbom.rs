//! A CycloneDX 1.4 software bill of materials from the text of `Cargo.lock`.
use vstd::prelude::*;
use crate::format::email::join_with;
use crate::format::pptx::ends_with;
use crate::strings::{chars_of, chars_start_with, lines_spec, split_lines, starts_with, string_of, trim_chars, trim_spec, views_of};

verus! {

/// A locked package: name, version and, for one not at the root, its source.
pub struct Package {
    pub name: String,
    pub version: String,
    pub source: Option<String>,
}

/// A package as plain values.
pub type PackageView = (Seq<char>, Seq<char>, Option<Seq<char>>);

/// The views of packages.
pub open spec fn package_views(ps: Seq<Package>) -> Seq<PackageView> {
    ps.map_values(|p: Package| (p.name@, p.version@, crate::format::archive::opt_string(p.source)))
}

/// A text without its trailing `"`.
pub open spec fn trim_quotes(s: Seq<char>) -> Seq<char>
    decreases s.len(),
{
    if s.len() > 0 && s.last() == '"' { trim_quotes(s.drop_last()) } else { s }
}

/// The value of a `key = "value"` line, if the line is one for `key`.
pub open spec fn field_value(line: Seq<char>, prefix: Seq<char>) -> Option<Seq<char>> {
    if starts_with(line, prefix) { Some(trim_quotes(line.skip(prefix.len() as int))) } else { None }
}

/// The reader's state: packages so far and the fields of the current one.
pub type LockState = (Seq<PackageView>, Option<Seq<char>>, Option<Seq<char>>, Option<Seq<char>>);

/// The packages with a closed one added, when it has a name and a version.
pub open spec fn flush_package(st: LockState) -> Seq<PackageView> {
    match st.1 {
        Some(n) => match st.2 {
            Some(v) => st.0.push((n, v, st.3)),
            None => st.0,
        },
        None => st.0,
    }
}

/// The state after one (trimmed) line: `[[package]]` closes the current package;
/// `name`, `version` and `source` lines set its fields.
pub open spec fn lock_line(st: LockState, line: Seq<char>) -> LockState {
    let t = trim_spec(line);
    if t == "[[package]]"@ {
        (flush_package(st), None, None, None)
    } else if field_value(t, "name = \""@) is Some {
        (st.0, field_value(t, "name = \""@), st.2, st.3)
    } else if field_value(t, "version = \""@) is Some {
        (st.0, st.1, field_value(t, "version = \""@), st.3)
    } else if field_value(t, "source = \""@) is Some {
        (st.0, st.1, st.2, field_value(t, "source = \""@))
    } else {
        st
    }
}

/// The state after the first `k` lines.
pub open spec fn lock_lines(ls: Seq<Seq<char>>, k: int) -> LockState
    decreases k,
{
    if k <= 0 { (seq![], None, None, None) } else { lock_line(lock_lines(ls, k - 1), ls[k - 1]) }
}

/// The packages of a `Cargo.lock` text, in order.
pub open spec fn lock_packages(s: Seq<char>) -> Seq<PackageView> {
    let ls = lines_spec(s);
    flush_package(lock_lines(ls, ls.len() as int))
}

/// The value of a `key = "value"` line.
fn field_value_exec(t: &Vec<char>, prefix: &str) -> (r: Option<Vec<char>>)
    ensures
        match r {
            Some(v) => field_value(t@, prefix@) == Some(v@),
            None => field_value(t@, prefix@) is None,
        },
{
    let p = chars_of(prefix);
    if !chars_start_with(t.as_slice(), p.as_slice()) {
        return None;
    }
    let mut v: Vec<char> = Vec::new();
    let mut i: usize = p.len();
    while i < t.len()
        invariant
            p@.len() <= i <= t@.len(),
            p@ == prefix@,
            v@ == t@.subrange(p@.len() as int, i as int),
        decreases t@.len() - i,
    {
        v.push(t[i]);
        i += 1;
        assert(v@ =~= t@.subrange(p@.len() as int, i as int));
    }
    assert(t@.subrange(p@.len() as int, t@.len() as int) =~= t@.skip(p@.len() as int));
    while v.len() > 0 && v[v.len() - 1] == '"'
        invariant
            trim_quotes(t@.skip(prefix@.len() as int)) == trim_quotes(v@),
        decreases v@.len(),
    {
        let ghost before = v@;
        v.pop();
        assert(v@ =~= before.drop_last());
    }
    Some(v)
}

/// The view of an optional character vector.
pub open spec fn opt_chars(o: Option<Vec<char>>) -> Option<Seq<char>> {
    match o {
        Some(v) => Some(v@),
        None => None,
    }
}

fn flush_exec(pkgs: &mut Vec<Package>, name: &Option<Vec<char>>, version: &Option<Vec<char>>, source: &Option<Vec<char>>)
    ensures
        package_views(final(pkgs)@) == flush_package((package_views(old(pkgs)@), opt_chars(*name), opt_chars(*version), opt_chars(*source))),
{
    if let Some(n) = name {
        if let Some(v) = version {
            let ghost before = package_views(pkgs@);
            let p = Package {
                name: string_of(n.as_slice()),
                version: string_of(v.as_slice()),
                source: match source {
                    Some(s) => Some(string_of(s.as_slice())),
                    None => None,
                },
            };
            pkgs.push(p);
            assert(package_views(pkgs@) =~= before.push((n@, v@, opt_chars(*source))));
        }
    }
}

/// The packages of a `Cargo.lock` text.
pub fn parse_cargo_lock(contents: &str) -> (pkgs: Vec<Package>)
    ensures
        package_views(pkgs@) == lock_packages(contents@),
{
    let chars = chars_of(contents);
    let lines = split_lines(chars.as_slice());
    let ghost ls = lines_spec(contents@);
    let mut pkgs: Vec<Package> = Vec::new();
    let mut name: Option<Vec<char>> = None;
    let mut version: Option<Vec<char>> = None;
    let mut source: Option<Vec<char>> = None;
    assert(package_views(pkgs@) =~= seq![]);
    let mut k: usize = 0;
    while k < lines.len()
        invariant
            k <= lines@.len(),
            views_of(lines@) == ls,
            (package_views(pkgs@), opt_chars(name), opt_chars(version), opt_chars(source)) == lock_lines(ls, k as int),
        decreases lines@.len() - k,
    {
        assert(ls[k as int] == lines@[k as int]@);
        let t = trim_chars(lines[k].as_slice());
        let header = chars_of("[[package]]");
        if t.len() == header.len() && chars_start_with(t.as_slice(), header.as_slice()) {
            assert(t@.take(t@.len() as int) =~= t@);
            flush_exec(&mut pkgs, &name, &version, &source);
            name = None;
            version = None;
            source = None;
        } else {
            proof {
                if t@ == "[[package]]"@ {
                    assert(t@.take(header@.len() as int) =~= t@);
                }
            }
            match field_value_exec(&t, "name = \"") {
                Some(v) => name = Some(v),
                None => match field_value_exec(&t, "version = \"") {
                    Some(v) => version = Some(v),
                    None => match field_value_exec(&t, "source = \"") {
                        Some(v) => source = Some(v),
                        None => {},
                    },
                },
            }
        }
        k += 1;
    }
    flush_exec(&mut pkgs, &name, &version, &source);
    pkgs
}

/// A character as JSON writes it inside a string.
pub open spec fn json_char(c: char) -> Seq<char> {
    if c == '\\' {
        seq!['\\', '\\']
    } else if c == '"' {
        seq!['\\', '"']
    } else if c == '\n' {
        seq!['\\', 'n']
    } else if c == '\r' {
        seq!['\\', 'r']
    } else if c == '\t' {
        seq!['\\', 't']
    } else {
        seq![c]
    }
}

/// A text escaped for a JSON string: backslash, quote, newline, carriage return and tab.
pub open spec fn json_escaped(s: Seq<char>) -> Seq<char>
    decreases s.len(),
{
    if s.len() == 0 { seq![] } else { json_escaped(s.drop_last()) + json_char(s.last()) }
}

/// Escapes a text for a JSON string.
pub fn escape_json(s: &str) -> (r: String)
    ensures
        r@ == json_escaped(s@),
{
    let cs = chars_of(s);
    let mut out: Vec<char> = Vec::new();
    let mut i: usize = 0;
    while i < cs.len()
        invariant
            i <= cs@.len(),
            cs@ == s@,
            out@ == json_escaped(cs@.take(i as int)),
        decreases cs@.len() - i,
    {
        assert(cs@.take(i + 1).drop_last() =~= cs@.take(i as int));
        let c = cs[i];
        let ghost before = out@;
        if c == '\\' {
            out.push('\\');
            out.push('\\');
        } else if c == '"' {
            out.push('\\');
            out.push('"');
        } else if c == '\n' {
            out.push('\\');
            out.push('n');
        } else if c == '\r' {
            out.push('\\');
            out.push('r');
        } else if c == '\t' {
            out.push('\\');
            out.push('t');
        } else {
            out.push(c);
        }
        assert(out@ =~= before + json_char(c));
        i += 1;
    }
    assert(cs@.take(i as int) =~= s@);
    string_of(out.as_slice())
}

/// The component of a registry package.
pub open spec fn component(p: PackageView) -> Seq<char> {
    "    {\n      \"type\": \"library\",\n      \"name\": \""@ + json_escaped(p.0) + "\",\n      \"version\": \""@
        + json_escaped(p.1) + "\",\n      \"purl\": \""@ + json_escaped("pkg:cargo/"@ + p.0 + "@"@ + p.1)
        + "\"\n    }"@
}

/// The components of the registry packages, in order.
pub open spec fn registry_components(ps: Seq<PackageView>) -> Seq<Seq<char>>
    decreases ps.len(),
{
    if ps.len() == 0 {
        seq![]
    } else {
        let before = registry_components(ps.drop_last());
        match ps.last().2 {
            Some(s) => if starts_with(s, "registry"@) { before.push(component(ps.last())) } else { before },
            None => before,
        }
    }
}

/// The placeholder components of the C libraries to come.
pub open spec fn placeholder_components() -> Seq<Seq<char>> {
    seq![
        "    {\n      \"type\": \"library\",\n      \"name\": \"mupdf\",\n      \"version\": \"0.0.0-placeholder\",\n      \"purl\": \"pkg:generic/mupdf@0.0.0-placeholder\",\n      \"description\": \"Placeholder: MuPDF C library (not yet vendored)\"\n    }"@,
        "    {\n      \"type\": \"library\",\n      \"name\": \"onnxruntime\",\n      \"version\": \"0.0.0-placeholder\",\n      \"purl\": \"pkg:generic/onnxruntime@0.0.0-placeholder\",\n      \"description\": \"Placeholder: ONNX Runtime C library (not yet vendored)\"\n    }"@,
    ]
}

/// The SBOM document of the packages, stamped with `timestamp`.
pub open spec fn sbom_document(ps: Seq<PackageView>, timestamp: Seq<char>) -> Seq<char> {
    "{\n  \"bomFormat\": \"CycloneDX\",\n  \"specVersion\": \"1.4\",\n  \"version\": 1,\n  \"metadata\": {\n    \"timestamp\": \""@
        + timestamp
        + "\",\n    \"component\": {\n      \"type\": \"application\",\n      \"name\": \"parser-chunker\",\n      \"version\": \"0.1.0\",\n      \"purl\": \"pkg:cargo/parser-chunker@0.1.0\",\n      \"licenses\": [{\"license\": {\"id\": \"AGPL-3.0-only\"}}]\n    },\n    \"tools\": [{\"name\": \"generate-sbom\", \"version\": \"1.0.0\"}]\n  },\n  \"components\": [\n"@
        + join_with(registry_components(ps) + placeholder_components(), ",\n"@) + "\n  ]\n}\n"@
}

/// Builds the CycloneDX document of the registry packages, stamped with `timestamp`.
pub fn build_cyclonedx(packages: &[Package], timestamp: &str) -> (s: String)
    ensures
        s@ == sbom_document(package_views(packages@), timestamp@),
{
    let ghost pv = package_views(packages@);
    let mut comps: Vec<String> = Vec::new();
    let mut i: usize = 0;
    while i < packages.len()
        invariant
            i <= packages@.len(),
            pv == package_views(packages@),
            comps.deep_view() == registry_components(pv.take(i as int)),
        decreases packages@.len() - i,
    {
        assert(pv.take(i + 1).drop_last() =~= pv.take(i as int));
        let p = &packages[i];
        if let Some(src) = &p.source {
            if chars_start_with(chars_of(src.as_str()).as_slice(), chars_of("registry").as_slice()) {
                let purl = String::from_str("pkg:cargo/").concat(p.name.as_str()).concat("@").concat(p.version.as_str());
                let c = String::from_str("    {\n      \"type\": \"library\",\n      \"name\": \"")
                    .concat(escape_json(p.name.as_str()).as_str())
                    .concat("\",\n      \"version\": \"")
                    .concat(escape_json(p.version.as_str()).as_str())
                    .concat("\",\n      \"purl\": \"")
                    .concat(escape_json(purl.as_str()).as_str())
                    .concat("\"\n    }");
                let ghost before = comps.deep_view();
                let ghost cv = c@;
                comps.push(c);
                assert(comps.deep_view() =~= before.push(cv));
            }
        }
        i += 1;
    }
    assert(pv.take(i as int) =~= pv);
    let ghost reg = comps.deep_view();
    comps.push(String::from_str("    {\n      \"type\": \"library\",\n      \"name\": \"mupdf\",\n      \"version\": \"0.0.0-placeholder\",\n      \"purl\": \"pkg:generic/mupdf@0.0.0-placeholder\",\n      \"description\": \"Placeholder: MuPDF C library (not yet vendored)\"\n    }"));
    comps.push(String::from_str("    {\n      \"type\": \"library\",\n      \"name\": \"onnxruntime\",\n      \"version\": \"0.0.0-placeholder\",\n      \"purl\": \"pkg:generic/onnxruntime@0.0.0-placeholder\",\n      \"description\": \"Placeholder: ONNX Runtime C library (not yet vendored)\"\n    }"));
    assert(comps.deep_view() =~= reg + placeholder_components());
    let joined = crate::format::email::join_strings(&comps, ",\n");
    String::from_str("{\n  \"bomFormat\": \"CycloneDX\",\n  \"specVersion\": \"1.4\",\n  \"version\": 1,\n  \"metadata\": {\n    \"timestamp\": \"")
        .concat(timestamp)
        .concat("\",\n    \"component\": {\n      \"type\": \"application\",\n      \"name\": \"parser-chunker\",\n      \"version\": \"0.1.0\",\n      \"purl\": \"pkg:cargo/parser-chunker@0.1.0\",\n      \"licenses\": [{\"license\": {\"id\": \"AGPL-3.0-only\"}}]\n    },\n    \"tools\": [{\"name\": \"generate-sbom\", \"version\": \"1.0.0\"}]\n  },\n  \"components\": [\n")
        .concat(joined.as_str())
        .concat("\n  ]\n}\n")
}

} // verus!
