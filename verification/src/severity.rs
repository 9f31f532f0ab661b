//! Change severity. Its job is to keep a rules change from being buried under
//! a week of marketplace counter churn.

use vstd::prelude::*;

use crate::text;

verus! {

#[derive(Debug, Clone, Copy, PartialEq, Eq, PartialOrd, Ord, Structural)]
pub enum Severity {
    Unchanged,
    /// Only `info.*` moved in the rules document.
    Metadata,
    /// Marketplace counters and mapping rows.
    Routine,
    /// A marketplace authorization event.
    Minor,
    /// A rule or a submission schema moved.
    Major,
}

impl Default for Severity {
    fn default() -> (s: Severity)
        ensures
            s == Severity::Unchanged,
    {
        Severity::Unchanged
    }
}

impl Severity {
    /// Louder severities have higher ranks.
    pub open spec fn rank(self) -> int {
        match self {
            Severity::Unchanged => 0,
            Severity::Metadata => 1,
            Severity::Routine => 2,
            Severity::Minor => 3,
            Severity::Major => 4,
        }
    }

    pub open spec fn label_text(self) -> Seq<char> {
        match self {
            Severity::Unchanged => "none"@,
            Severity::Metadata => "metadata"@,
            Severity::Routine => "routine"@,
            Severity::Minor => "minor"@,
            Severity::Major => "major"@,
        }
    }

    pub open spec fn headline_text(self) -> Seq<char> {
        match self {
            Severity::Unchanged => "no change"@,
            Severity::Metadata => "metadata only"@,
            Severity::Routine => "routine movement"@,
            Severity::Minor => "marketplace authorization activity"@,
            Severity::Major => "RULES CHANGED"@,
        }
    }

    pub fn label(self) -> (s: &'static str)
        ensures
            s@ == self.label_text(),
    {
        match self {
            Severity::Unchanged => "none",
            Severity::Metadata => "metadata",
            Severity::Routine => "routine",
            Severity::Minor => "minor",
            Severity::Major => "major",
        }
    }

    pub fn headline(self) -> (s: &'static str)
        ensures
            s@ == self.headline_text(),
    {
        match self {
            Severity::Unchanged => "no change",
            Severity::Metadata => "metadata only",
            Severity::Routine => "routine movement",
            Severity::Minor => "marketplace authorization activity",
            Severity::Major => "RULES CHANGED",
        }
    }

    pub fn loudness(self) -> (n: u8)
        ensures
            n as int == self.rank(),
    {
        match self {
            Severity::Unchanged => 0,
            Severity::Metadata => 1,
            Severity::Routine => 2,
            Severity::Minor => 3,
            Severity::Major => 4,
        }
    }

    /// The severity that a label names, in any ASCII case.
    pub fn parse(value: &str) -> (r: Result<Severity, String>)
        ensures
            match r {
                Ok(s) => named(value@) == Some(s),
                Err(e) => named(value@) is None && e@ == "unknown severity `"@ + text::ascii_lower(
                    value@,
                ) + "`"@,
            },
    {
        let lower = text::to_ascii_lower(value);
        proof {
            lemma_labels_differ();
        }
        if text::same_text(lower.as_str(), "none") {
            Ok(Severity::Unchanged)
        } else if text::same_text(lower.as_str(), "metadata") {
            Ok(Severity::Metadata)
        } else if text::same_text(lower.as_str(), "routine") {
            Ok(Severity::Routine)
        } else if text::same_text(lower.as_str(), "minor") {
            Ok(Severity::Minor)
        } else if text::same_text(lower.as_str(), "major") {
            Ok(Severity::Major)
        } else {
            let mut message = "unknown severity `".to_owned();
            message.push_str(lower.as_str());
            message.push_str("`");
            Err(message)
        }
    }
}

/// The severity whose label a text is, up to ASCII case.
pub open spec fn named(s: Seq<char>) -> Option<Severity> {
    let lower = text::ascii_lower(s);
    if lower == "none"@ {
        Some(Severity::Unchanged)
    } else if lower == "metadata"@ {
        Some(Severity::Metadata)
    } else if lower == "routine"@ {
        Some(Severity::Routine)
    } else if lower == "minor"@ {
        Some(Severity::Minor)
    } else if lower == "major"@ {
        Some(Severity::Major)
    } else {
        None
    }
}

impl std::str::FromStr for Severity {
    type Err = String;

    fn from_str(value: &str) -> (r: Result<Severity, String>)
        ensures
            match r {
                Ok(s) => named(value@) == Some(s),
                Err(e) => named(value@) is None && e@ == "unknown severity `"@ + text::ascii_lower(
                    value@,
                ) + "`"@,
            },
    {
        Severity::parse(value)
    }
}

/// The louder of two severities.
pub open spec fn louder(a: Severity, b: Severity) -> Severity {
    if b.rank() >= a.rank() {
        b
    } else {
        a
    }
}

pub fn max_severity(a: Severity, b: Severity) -> (m: Severity)
    ensures
        m == louder(a, b),
{
    if b.loudness() >= a.loudness() {
        b
    } else {
        a
    }
}

/// No two labels read alike.
pub proof fn lemma_labels_differ()
    ensures
        forall|a: Severity, b: Severity| a.label_text() == b.label_text() ==> a == b,
{
    reveal_strlit("none");
    reveal_strlit("metadata");
    reveal_strlit("routine");
    reveal_strlit("minor");
    reveal_strlit("major");
    assert forall|a: Severity, b: Severity| a.label_text() == b.label_text() implies a == b by {
        assert(a.label_text().len() == b.label_text().len());
        assert(a.label_text()[1] == b.label_text()[1]);
    }
}

/// A severity's label names that severity.
pub proof fn law_label_parses(s: Severity)
    ensures
        named(s.label_text()) == Some(s),
{
    lemma_labels_differ();
    reveal_strlit("none");
    reveal_strlit("metadata");
    reveal_strlit("routine");
    reveal_strlit("minor");
    reveal_strlit("major");
    assert(text::ascii_lower(s.label_text()) =~= s.label_text());
    assert(Severity::Unchanged.label_text() == "none"@);
    assert(Severity::Metadata.label_text() == "metadata"@);
    assert(Severity::Routine.label_text() == "routine"@);
    assert(Severity::Minor.label_text() == "minor"@);
}

/// Severities rise from no change at all to a change of the rules, and no two are
/// equally loud.
pub proof fn law_severities_rise(a: Severity, b: Severity)
    ensures
        Severity::Unchanged.rank() < Severity::Metadata.rank() < Severity::Routine.rank()
            < Severity::Minor.rank() < Severity::Major.rank(),
        a.rank() == b.rank() ==> a == b,
{
}

/// The louder of two severities is one of them, no quieter than either, and the
/// same whichever comes first.
pub proof fn law_louder_is_the_greater(a: Severity, b: Severity)
    ensures
        louder(a, b) == a || louder(a, b) == b,
        louder(a, b).rank() >= a.rank(),
        louder(a, b).rank() >= b.rank(),
        louder(a, b) == louder(b, a),
        louder(Severity::Unchanged, a) == a,
        louder(Severity::Major, a) == Severity::Major,
{
}

/// A severity is named by its label in any case, and by nothing else.
pub proof fn law_severity_names_ignore_case(a: Seq<char>, b: Seq<char>)
    ensures
        text::alike(a, b) ==> named(a) == named(b),
        named(a) matches Some(s) ==> text::ascii_lower(a) == s.label_text(),
{
}

/// No two severities have one headline.
pub proof fn law_headlines_tell_apart(a: Severity, b: Severity)
    ensures
        a.headline_text() == b.headline_text() ==> a == b,
        Severity::Major.headline_text() == "RULES CHANGED"@,
{
    reveal_strlit("no change");
    reveal_strlit("metadata only");
    reveal_strlit("routine movement");
    reveal_strlit("marketplace authorization activity");
    reveal_strlit("RULES CHANGED");
    assert("no change"@.len() == 9);
    assert("metadata only"@.len() == 13);
    assert("routine movement"@.len() == 16);
    assert("marketplace authorization activity"@.len() == 34);
    assert("RULES CHANGED"@.len() == 13);
    assert("RULES CHANGED"@[0] == 'R');
    assert("metadata only"@[0] == 'm');
}

/// Each severity has its own label.
pub proof fn law_labels_are_the_words()
    ensures
        Severity::Unchanged.label_text() == "none"@,
        Severity::Metadata.label_text() == "metadata"@,
        Severity::Routine.label_text() == "routine"@,
        Severity::Minor.label_text() == "minor"@,
        Severity::Major.label_text() == "major"@,
        named("MAJOR"@) == Some(Severity::Major),
{
    law_label_parses(Severity::Major);
    reveal_strlit("MAJOR");
    reveal_strlit("major");
    assert(text::ascii_lower("MAJOR"@) =~= "major"@);
    assert(text::ascii_lower("major"@) =~= "major"@);
}

} // verus!
