//! Grades of key material and the security levels that choose among them.
use crate::text::text_eq;
use vstd::prelude::*;
use vstd::string::*;

verus! {

/// How a key was made.
#[derive(Debug, Clone, Copy, PartialEq, Eq, Hash, Structural)]
pub enum KeyGrade {
    Qkd,
    Pqc,
}

impl Default for KeyGrade {
    fn default() -> (r: Self)
        ensures
            r == KeyGrade::Qkd,
    {
        KeyGrade::Qkd
    }
}

impl KeyGrade {
    pub open spec fn name(self) -> Seq<char> {
        match self {
            KeyGrade::Qkd => "qkd"@,
            KeyGrade::Pqc => "pqc"@,
        }
    }

    pub fn as_str(self) -> (r: &'static str)
        ensures
            r@ == self.name(),
    {
        match self {
            KeyGrade::Qkd => "qkd",
            KeyGrade::Pqc => "pqc",
        }
    }

    /// The grade as it stands in a frame.
    pub fn wire_byte(self) -> (r: u8)
        ensures
            r == (match self {
                KeyGrade::Qkd => 0u8,
                KeyGrade::Pqc => 1u8,
            }),
    {
        match self {
            KeyGrade::Qkd => 0,
            KeyGrade::Pqc => 1,
        }
    }
}

/// What a requester asks of the key material.
#[derive(Debug, Clone, Copy, PartialEq, Eq, Hash, Structural)]
pub enum SecurityLevel {
    StrictQkd,
    QkdPrefer,
    NoWorry,
}

impl Default for SecurityLevel {
    fn default() -> (r: Self)
        ensures
            r == SecurityLevel::QkdPrefer,
    {
        SecurityLevel::QkdPrefer
    }
}

#[derive(Debug, Clone, Copy, PartialEq, Eq, Structural)]
pub enum GradeResolution {
    Serve(KeyGrade),
    Unsatisfiable,
}

/// The first grade of an order of preference that is available.
pub open spec fn first_available(prefs: Seq<KeyGrade>, qkd: bool, pqc: bool) -> GradeResolution
    decreases prefs.len(),
{
    if prefs.len() == 0 {
        GradeResolution::Unsatisfiable
    } else if (match prefs[0] {
        KeyGrade::Qkd => qkd,
        KeyGrade::Pqc => pqc,
    }) {
        GradeResolution::Serve(prefs[0])
    } else {
        first_available(prefs.drop_first(), qkd, pqc)
    }
}

impl SecurityLevel {
    pub open spec fn token(self) -> Seq<char> {
        match self {
            SecurityLevel::StrictQkd => "strict_qkd"@,
            SecurityLevel::QkdPrefer => "qkd_prefer"@,
            SecurityLevel::NoWorry => "no_worry"@,
        }
    }

    pub fn as_str(self) -> (r: &'static str)
        ensures
            r@ == self.token(),
    {
        match self {
            SecurityLevel::StrictQkd => "strict_qkd",
            SecurityLevel::QkdPrefer => "qkd_prefer",
            SecurityLevel::NoWorry => "no_worry",
        }
    }

    /// The level that a token names.
    pub open spec fn named(s: Seq<char>) -> Option<SecurityLevel> {
        if s == SecurityLevel::StrictQkd.token() {
            Some(SecurityLevel::StrictQkd)
        } else if s == SecurityLevel::QkdPrefer.token() {
            Some(SecurityLevel::QkdPrefer)
        } else if s == SecurityLevel::NoWorry.token() {
            Some(SecurityLevel::NoWorry)
        } else {
            None
        }
    }

    pub fn from_token(s: &str) -> (r: Option<Self>)
        ensures
            r == SecurityLevel::named(s@),
    {
        if text_eq(s, "strict_qkd") {
            Some(SecurityLevel::StrictQkd)
        } else if text_eq(s, "qkd_prefer") {
            Some(SecurityLevel::QkdPrefer)
        } else if text_eq(s, "no_worry") {
            Some(SecurityLevel::NoWorry)
        } else {
            None
        }
    }

    /// Grades that may serve a request of this level, the preferred one first.
    pub open spec fn prefs(self) -> Seq<KeyGrade> {
        match self {
            SecurityLevel::StrictQkd => seq![KeyGrade::Qkd],
            SecurityLevel::QkdPrefer => seq![KeyGrade::Qkd, KeyGrade::Pqc],
            SecurityLevel::NoWorry => seq![KeyGrade::Pqc, KeyGrade::Qkd],
        }
    }

    pub fn serve_pref(self) -> (r: Vec<KeyGrade>)
        ensures
            r@ == self.prefs(),
    {
        let mut v: Vec<KeyGrade> = Vec::new();
        match self {
            SecurityLevel::StrictQkd => {
                v.push(KeyGrade::Qkd);
            },
            SecurityLevel::QkdPrefer => {
                v.push(KeyGrade::Qkd);
                v.push(KeyGrade::Pqc);
            },
            SecurityLevel::NoWorry => {
                v.push(KeyGrade::Pqc);
                v.push(KeyGrade::Qkd);
            },
        }
        assert(v@ =~= self.prefs());
        v
    }

    /// The grade that a request of this level is served with.
    pub fn resolve_grade(self, qkd_available: bool, pqc_available: bool) -> (r: GradeResolution)
        ensures
            r == first_available(self.prefs(), qkd_available, pqc_available),
    {
        proof {
            reveal_with_fuel(first_available, 3);
            assert(seq![KeyGrade::Qkd].drop_first() =~= Seq::<KeyGrade>::empty());
            assert(seq![KeyGrade::Qkd, KeyGrade::Pqc].drop_first() =~= seq![KeyGrade::Pqc]);
            assert(seq![KeyGrade::Pqc, KeyGrade::Qkd].drop_first() =~= seq![KeyGrade::Qkd]);
            assert(seq![KeyGrade::Pqc].drop_first() =~= Seq::<KeyGrade>::empty());
        }
        match self {
            SecurityLevel::StrictQkd => if qkd_available {
                GradeResolution::Serve(KeyGrade::Qkd)
            } else {
                GradeResolution::Unsatisfiable
            },
            SecurityLevel::QkdPrefer => if qkd_available {
                GradeResolution::Serve(KeyGrade::Qkd)
            } else if pqc_available {
                GradeResolution::Serve(KeyGrade::Pqc)
            } else {
                GradeResolution::Unsatisfiable
            },
            SecurityLevel::NoWorry => if pqc_available {
                GradeResolution::Serve(KeyGrade::Pqc)
            } else if qkd_available {
                GradeResolution::Serve(KeyGrade::Qkd)
            } else {
                GradeResolution::Unsatisfiable
            },
        }
    }
}

/// A request for strict QKD is never served with another grade.
pub proof fn strict_requests_get_qkd_only(qkd: bool, pqc: bool)
    ensures
        first_available(SecurityLevel::StrictQkd.prefs(), qkd, pqc) == (if qkd {
            GradeResolution::Serve(KeyGrade::Qkd)
        } else {
            GradeResolution::Unsatisfiable
        }),
{
    reveal_with_fuel(first_available, 3);
    assert(SecurityLevel::StrictQkd.prefs().drop_first() =~= Seq::<KeyGrade>::empty());
}

/// Every level names itself.
pub proof fn token_names_its_level(level: SecurityLevel)
    ensures
        SecurityLevel::named(level.token()) == Some(level),
{
    reveal_strlit("strict_qkd");
    reveal_strlit("qkd_prefer");
    reveal_strlit("no_worry");
    assert("strict_qkd"@[0] != "qkd_prefer"@[0]);
    assert("no_worry"@[0] != "strict_qkd"@[0]);
    assert("no_worry"@[0] != "qkd_prefer"@[0]);
}

/// Where QKD keys are preferred they serve as long as there are any, and others only
/// after them; where nobody worries it is the other way round. Either is served as
/// long as there is a key at all.
pub proof fn preference_decides_between_the_grades(qkd: bool, pqc: bool)
    ensures
        qkd ==> first_available(SecurityLevel::QkdPrefer.prefs(), qkd, pqc)
            == GradeResolution::Serve(KeyGrade::Qkd),
        !qkd && pqc ==> first_available(SecurityLevel::QkdPrefer.prefs(), qkd, pqc)
            == GradeResolution::Serve(KeyGrade::Pqc),
        pqc ==> first_available(SecurityLevel::NoWorry.prefs(), qkd, pqc) == GradeResolution::Serve(
            KeyGrade::Pqc,
        ),
        !pqc && qkd ==> first_available(SecurityLevel::NoWorry.prefs(), qkd, pqc)
            == GradeResolution::Serve(KeyGrade::Qkd),
        !qkd && !pqc ==> first_available(SecurityLevel::QkdPrefer.prefs(), qkd, pqc)
            == GradeResolution::Unsatisfiable && first_available(
            SecurityLevel::NoWorry.prefs(),
            qkd,
            pqc,
        ) == GradeResolution::Unsatisfiable,
{
    reveal_with_fuel(first_available, 3);
}

/// A level is named by its token in full and by nothing else.
pub proof fn only_tokens_name_levels(s: Seq<char>)
    ensures
        SecurityLevel::named(s) == Some(SecurityLevel::StrictQkd) <==> s == "strict_qkd"@,
        SecurityLevel::named(s) == Some(SecurityLevel::QkdPrefer) <==> s == "qkd_prefer"@,
        SecurityLevel::named(s) == Some(SecurityLevel::NoWorry) <==> s == "no_worry"@,
{
    token_names_its_level(SecurityLevel::StrictQkd);
    token_names_its_level(SecurityLevel::QkdPrefer);
    token_names_its_level(SecurityLevel::NoWorry);
}

} // verus!
