//! Splitting the raw lines of a script file into its two sections. Blank
//! lines are dropped; `#decls`/`#enddecls` and `#script`/`#endscript`
//! marker lines toggle the sections and are not collected themselves.

use crate::text::str_eq;
use vstd::prelude::*;
use vstd::string::StrSliceExecFns;

verus! {

/// State of the section scan: the lines collected for each section and
/// whether the scan currently stands inside each.
pub ghost struct SectionsSpec {
    pub decls: Seq<Seq<char>>,
    pub script: Seq<Seq<char>>,
    pub in_decls: bool,
    pub in_script: bool,
}

/// The state the scan starts from: nothing collected, outside both
/// sections.
pub open spec fn sections_init() -> SectionsSpec {
    SectionsSpec { decls: Seq::empty(), script: Seq::empty(), in_decls: false, in_script: false }
}

/// One raw line consumed: an empty line is dropped, a marker line toggles
/// its section's flag, and a non-marker line inside a section is
/// collected. A closing marker toggles before the collection test, so it
/// is never collected.
pub open spec fn sections_step(st: SectionsSpec, line: Seq<char>) -> SectionsSpec {
    if line.len() == 0 {
        st
    } else {
        let in_decls = if line == "#decls"@ {
            true
        } else if line == "#enddecls"@ {
            false
        } else {
            st.in_decls
        };
        let in_script = if line == "#script"@ {
            true
        } else if line == "#endscript"@ {
            false
        } else {
            st.in_script
        };
        SectionsSpec {
            decls: if in_decls && line != "#decls"@ {
                st.decls.push(line)
            } else {
                st.decls
            },
            script: if in_script && line != "#script"@ {
                st.script.push(line)
            } else {
                st.script
            },
            in_decls,
            in_script,
        }
    }
}

/// The scan state after the first `n` lines.
pub open spec fn sections_run(lines: Seq<Seq<char>>, n: int) -> SectionsSpec
    decreases n,
{
    if n <= 0 {
        sections_init()
    } else {
        sections_step(sections_run(lines, n - 1), lines[n - 1])
    }
}

/// What splitting a whole file yields.
pub open spec fn spec_split_sections(lines: Seq<Seq<char>>) -> SectionsSpec {
    sections_run(lines, lines.len() as int)
}

/// Split the raw lines of a script file into the declaration lines and
/// the script lines, exactly as [`spec_split_sections`] prescribes.
#[verifier::loop_isolation(false)]
pub fn split_sections(lines: &Vec<String>) -> (r: (Vec<String>, Vec<String>))
    ensures
        r.0@.map_values(|l: String| l@) == spec_split_sections(
            lines@.map_values(|l: String| l@),
        ).decls,
        r.1@.map_values(|l: String| l@) == spec_split_sections(
            lines@.map_values(|l: String| l@),
        ).script,
{
    let ghost slines = lines@.map_values(|l: String| l@);
    let mut decls: Vec<String> = Vec::new();
    let mut script: Vec<String> = Vec::new();
    let mut in_decls = false;
    let mut in_script = false;
    proof {
        assert(decls@.map_values(|l: String| l@) =~= Seq::<Seq<char>>::empty());
        assert(script@.map_values(|l: String| l@) =~= Seq::<Seq<char>>::empty());
    }
    let mut i: usize = 0;
    while i < lines.len()
        invariant
            i <= lines@.len(),
            sections_run(slines, i as int) == (SectionsSpec {
                decls: decls@.map_values(|l: String| l@),
                script: script@.map_values(|l: String| l@),
                in_decls,
                in_script,
            }),
        decreases lines@.len() - i,
    {
        let line = &lines[i];
        proof {
            assert(slines[i as int] == line@);
        }
        if !line.as_str().is_empty() {
            if str_eq(line.as_str(), "#decls") {
                in_decls = true;
            } else if str_eq(line.as_str(), "#enddecls") {
                in_decls = false;
            }
            if str_eq(line.as_str(), "#script") {
                in_script = true;
            } else if str_eq(line.as_str(), "#endscript") {
                in_script = false;
            }
            if in_decls && !str_eq(line.as_str(), "#decls") {
                let ghost d0 = decls@;
                decls.push(line.clone());
                proof {
                    assert(decls@.map_values(|l: String| l@) =~= d0.map_values(|l: String| l@).push(
                        line@,
                    ));
                }
            }
            if in_script && !str_eq(line.as_str(), "#script") {
                let ghost s0 = script@;
                script.push(line.clone());
                proof {
                    assert(script@.map_values(|l: String| l@) =~= s0.map_values(
                        |l: String| l@,
                    ).push(line@));
                }
            }
        }
        i += 1;
    }
    (decls, script)
}

} // verus!
