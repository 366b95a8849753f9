//! Names: every convention and every policy has its own, and nothing else has one.

use crate::binding;
use crate::flow::RootPolicy;
use crate::host::DayCount;
use vstd::prelude::*;

verus! {

/// What a convention is called.
pub open spec fn convention_text(c: DayCount) -> Seq<char> {
    match c {
        DayCount::ACT_365F => "act/365f"@,
        DayCount::ACT_365A => "act/365a"@,
        DayCount::ACT_364 => "act/364"@,
        DayCount::ACT_360 => "act/360"@,
        DayCount::ACT_ACT => "act/act"@,
        DayCount::ACT_ACT_ISDA => "act/act_isda"@,
        DayCount::ACT_ACT_AFB => "act/act_afb"@,
        DayCount::THIRTY_360 => "30/360"@,
        DayCount::THIRTY_E_360 => "30e/360"@,
        DayCount::THIRTY_E_PLUS_360 => "30e+/360"@,
        DayCount::THIRTY_U_360 => "30u/360"@,
        DayCount::NL_365 => "nl/365"@,
    }
}

/// `name` is what a policy is called.
pub open spec fn policy_text(p: RootPolicy, name: Seq<char>) -> bool {
    match p {
        RootPolicy::SpreadsheetCompat => name == "spreadsheet"@ || name == "spreadsheetCompat"@,
        RootPolicy::SpreadsheetThenRobust => name == "spreadsheetThenRobust"@ || name
            == "default"@,
        RootPolicy::Lowest => name == "lowest"@,
        RootPolicy::ClosestToGuess => name == "closestToGuess"@,
    }
}

/// A convention is read from its name, and from no other text.
pub proof fn law_conventions_are_read_by_name(name: Seq<char>, c: DayCount)
    ensures
        binding::convention_named(name) == Some(c) <==> name == convention_text(c),
{
    let same = name == convention_text(c);
    assert(name =~= convention_text(c) ==> same);
    reveal_strlit("act/365f");
    assert("act/365f"@.len() == 8);
    reveal_strlit("act/365a");
    assert("act/365a"@.len() == 8);
    reveal_strlit("act/364");
    assert("act/364"@.len() == 7);
    reveal_strlit("act/360");
    assert("act/360"@.len() == 7);
    reveal_strlit("act/act");
    assert("act/act"@.len() == 7);
    reveal_strlit("act/act_isda");
    assert("act/act_isda"@.len() == 12);
    reveal_strlit("act/act_afb");
    assert("act/act_afb"@.len() == 11);
    reveal_strlit("30/360");
    assert("30/360"@.len() == 6);
    reveal_strlit("30e/360");
    assert("30e/360"@.len() == 7);
    reveal_strlit("30e+/360");
    assert("30e+/360"@.len() == 8);
    reveal_strlit("30u/360");
    assert("30u/360"@.len() == 7);
    reveal_strlit("nl/365");
    assert("nl/365"@.len() == 6);
    assert("act/365f"@[7] != "act/365a"@[7]);
    assert("act/365f"@[0] != "30e+/360"@[0]);
    assert("act/365a"@[0] != "30e+/360"@[0]);
    assert("act/364"@[6] != "act/360"@[6]);
    assert("act/364"@[4] != "act/act"@[4]);
    assert("act/364"@[0] != "30e/360"@[0]);
    assert("act/364"@[0] != "30u/360"@[0]);
    assert("act/360"@[4] != "act/act"@[4]);
    assert("act/360"@[0] != "30e/360"@[0]);
    assert("act/360"@[0] != "30u/360"@[0]);
    assert("act/act"@[0] != "30e/360"@[0]);
    assert("act/act"@[0] != "30u/360"@[0]);
    assert("30/360"@[0] != "nl/365"@[0]);
    assert("30e/360"@[2] != "30u/360"@[2]);
}

/// A policy is read from either of its names, and from no other text.
pub proof fn law_policies_are_read_by_name(name: Seq<char>, p: RootPolicy)
    ensures
        binding::policy_named(name) == Some(p) <==> policy_text(p, name),
{
    reveal_strlit("spreadsheet");
    assert("spreadsheet"@.len() == 11);
    reveal_strlit("spreadsheetCompat");
    assert("spreadsheetCompat"@.len() == 17);
    reveal_strlit("spreadsheetThenRobust");
    assert("spreadsheetThenRobust"@.len() == 21);
    reveal_strlit("default");
    assert("default"@.len() == 7);
    reveal_strlit("lowest");
    assert("lowest"@.len() == 6);
    reveal_strlit("closestToGuess");
    assert("closestToGuess"@.len() == 14);
}

/// An argument that is left out chooses nothing, and one that is given chooses what
/// it names.
pub proof fn law_arguments_choose_by_name(s: Option<String>)
    ensures
        s is None ==> binding::chosen_convention(s) is None && binding::chosen_policy(s) is None
            && binding::policy_known(s),
        s matches Some(name) ==> forall|c: DayCount|
            binding::chosen_convention(s) == Some(c) <==> name@ == #[trigger] convention_text(c),
        s matches Some(name) ==> forall|p: RootPolicy|
            binding::chosen_policy(s) == Some(p) <==> #[trigger] policy_text(p, name@),
        s matches Some(name) ==> (binding::policy_known(s) <==> exists|p: RootPolicy| #[trigger]
            policy_text(p, name@)),
{
    if s is Some {
        let name = s->0;
        assert forall|c: DayCount|
            binding::chosen_convention(s) == Some(c) <==> name@ == #[trigger] convention_text(
                c,
            ) by {
            law_conventions_are_read_by_name(name@, c);
        }
        assert forall|p: RootPolicy|
            binding::chosen_policy(s) == Some(p) <==> #[trigger] policy_text(p, name@) by {
            law_policies_are_read_by_name(name@, p);
        }
        if binding::policy_known(s) {
            let p = binding::chosen_policy(s)->0;
            assert(policy_text(p, name@));
        }
    }
}

} // verus!
