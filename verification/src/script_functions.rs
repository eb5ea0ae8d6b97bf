use vstd::prelude::*;
use vstd::string::*;

verus! {

/// The functions a game node script may define that the engine calls.
#[derive(PartialEq, Eq, Structural, Clone, Copy, Debug, Hash)]
pub enum GameNodeScriptFunction {
    Init,
    Update,
    InstanceReset,
    ActorJoined,
    ActorLeft,
    ScriptReload,
}

/// The name under which a script defines the function.
pub open spec fn function_name(f: GameNodeScriptFunction) -> Seq<char> {
    match f {
        GameNodeScriptFunction::Init => "init"@,
        GameNodeScriptFunction::Update => "update"@,
        GameNodeScriptFunction::InstanceReset => "instance_reset"@,
        GameNodeScriptFunction::ActorJoined => "actor_joined"@,
        GameNodeScriptFunction::ActorLeft => "actor_left"@,
        GameNodeScriptFunction::ScriptReload => "script_reload"@,
    }
}

/// The function a script function of that name is, if any.
pub open spec fn function_of_name(name: Seq<char>) -> Option<GameNodeScriptFunction> {
    if name == "init"@ {
        Some(GameNodeScriptFunction::Init)
    } else if name == "update"@ {
        Some(GameNodeScriptFunction::Update)
    } else if name == "instance_reset"@ {
        Some(GameNodeScriptFunction::InstanceReset)
    } else if name == "actor_joined"@ {
        Some(GameNodeScriptFunction::ActorJoined)
    } else if name == "actor_left"@ {
        Some(GameNodeScriptFunction::ActorLeft)
    } else if name == "script_reload"@ {
        Some(GameNodeScriptFunction::ScriptReload)
    } else {
        None
    }
}

/// The engine functions that the names define, each with its name.
pub open spec fn defined_functions(names: Seq<String>) -> Map<GameNodeScriptFunction, Seq<char>> {
    Map::new(
        |f: GameNodeScriptFunction| exists|i: int| 0 <= i < names.len() && #[trigger] names[i]@ == function_name(f),
        |f: GameNodeScriptFunction| function_name(f),
    )
}

/// The view of an association list of functions and names.
pub open spec fn functions_view(s: Seq<(GameNodeScriptFunction, &'static str)>) -> Map<GameNodeScriptFunction, Seq<char>>
    decreases s.len(),
{
    if s.len() == 0 {
        Map::empty()
    } else {
        functions_view(s.drop_last()).insert(s.last().0, s.last().1@)
    }
}

/// No function occurs twice.
pub open spec fn unique_functions(s: Seq<(GameNodeScriptFunction, &'static str)>) -> bool {
    forall|i: int, j: int| 0 <= i < j < s.len() ==> s[i].0 != s[j].0
}

/// The function a script function name stands for, with its name.
fn function_named(name: &String) -> (found: Option<(GameNodeScriptFunction, &'static str)>)
    ensures
        match found {
            Some((f, n)) => function_of_name(name@) == Some(f) && n@ == function_name(f),
            None => function_of_name(name@) is None,
        },
{
    if *name == String::from_str("init") {
        Some((GameNodeScriptFunction::Init, "init"))
    } else if *name == String::from_str("update") {
        Some((GameNodeScriptFunction::Update, "update"))
    } else if *name == String::from_str("instance_reset") {
        Some((GameNodeScriptFunction::InstanceReset, "instance_reset"))
    } else if *name == String::from_str("actor_joined") {
        Some((GameNodeScriptFunction::ActorJoined, "actor_joined"))
    } else if *name == String::from_str("actor_left") {
        Some((GameNodeScriptFunction::ActorLeft, "actor_left"))
    } else if *name == String::from_str("script_reload") {
        Some((GameNodeScriptFunction::ScriptReload, "script_reload"))
    } else {
        None
    }
}

/// A name stands for a function exactly when it is that function's name.
proof fn lemma_names_match(name: Seq<char>, f: GameNodeScriptFunction)
    ensures
        function_of_name(name) == Some(f) <==> name == function_name(f),
{
    reveal_strlit("init");
    reveal_strlit("update");
    reveal_strlit("instance_reset");
    reveal_strlit("actor_joined");
    reveal_strlit("actor_left");
    reveal_strlit("script_reload");
    assert("init"@.len() == 4);
    assert("update"@.len() == 6);
    assert("instance_reset"@.len() == 14);
    assert("actor_joined"@.len() == 12);
    assert("actor_left"@.len() == 10);
    assert("script_reload"@.len() == 13);
}

/// Sets the name of a function in a list without repeated functions.
fn set_function(list: &mut Vec<(GameNodeScriptFunction, &'static str)>, f: GameNodeScriptFunction, name: &'static str)
    requires
        unique_functions(old(list)@),
    ensures
        unique_functions(final(list)@),
        functions_view(final(list)@) == functions_view(old(list)@).insert(f, name@),
{
    let mut i: usize = 0;
    while i < list.len()
        invariant
            *list == *old(list),
            unique_functions(list@),
            i <= list@.len(),
            forall|k: int| 0 <= k < i ==> list@[k].0 != f,
        decreases list@.len() - i,
    {
        if list[i].0 == f {
            let ghost before = list@;
            list.set(i, (f, name));
            proof {
                lemma_functions_view_replace(before, i as int, f, name);
            }
            return;
        }
        i = i + 1;
    }
    list.push((f, name));
    proof {
        assert(list@.drop_last() =~= old(list)@);
    }
}

proof fn lemma_functions_view_replace(
    s: Seq<(GameNodeScriptFunction, &'static str)>,
    i: int,
    f: GameNodeScriptFunction,
    name: &'static str,
)
    requires
        unique_functions(s),
        0 <= i < s.len(),
        s[i].0 == f,
    ensures
        functions_view(s.update(i, (f, name))) == functions_view(s).insert(f, name@),
    decreases s.len(),
{
    let t = s.update(i, (f, name));
    if i == s.len() - 1 {
        assert(t.drop_last() =~= s.drop_last());
        assert(functions_view(t) =~= functions_view(s).insert(f, name@));
    } else {
        lemma_functions_view_replace(s.drop_last(), i, f, name);
        assert(t.drop_last() =~= s.drop_last().update(i, (f, name)));
        assert(s.last().0 != f);
        assert(functions_view(t) =~= functions_view(s).insert(f, name@));
    }
}

impl GameNodeScriptFunction {
    /// The engine functions that a script defines, given the names of the
    /// functions it defines, each with its name.
    pub fn map_from_function_names(names: &Vec<String>) -> (functions: Vec<(GameNodeScriptFunction, &'static str)>)
        ensures
            unique_functions(functions@),
            functions_view(functions@) == defined_functions(names@),
    {
        let mut functions: Vec<(GameNodeScriptFunction, &'static str)> = Vec::new();
        let mut i: usize = 0;
        proof {
            assert(functions_view(functions@) =~= defined_functions(names@.take(0)));
        }
        while i < names.len()
            invariant
                i <= names@.len(),
                unique_functions(functions@),
                functions_view(functions@) == defined_functions(names@.take(i as int)),
            decreases names@.len() - i,
        {
            let ghost before = functions_view(functions@);
            match function_named(&names[i]) {
                Some((f, n)) => {
                    set_function(&mut functions, f, n);
                },
                None => {},
            }
            proof {
                let prev = names@.take(i as int);
                let next = names@.take(i + 1);
                assert forall|g: GameNodeScriptFunction|
                    (exists|k: int| 0 <= k < next.len() && #[trigger] next[k]@ == function_name(g))
                        <==> ((exists|k: int| 0 <= k < prev.len() && #[trigger] prev[k]@ == function_name(g))
                        || names@[i as int]@ == function_name(g)) by {
                    if exists|k: int| 0 <= k < next.len() && #[trigger] next[k]@ == function_name(g) {
                        let k = choose|k: int| 0 <= k < next.len() && #[trigger] next[k]@ == function_name(g);
                        if k < i {
                            assert(prev[k] == next[k]);
                        }
                    }
                    if exists|k: int| 0 <= k < prev.len() && #[trigger] prev[k]@ == function_name(g) {
                        let k = choose|k: int| 0 <= k < prev.len() && #[trigger] prev[k]@ == function_name(g);
                        assert(next[k] == prev[k]);
                    }
                    if names@[i as int]@ == function_name(g) {
                        assert(next[i as int] == names@[i as int]);
                    }
                }
                assert forall|g: GameNodeScriptFunction| true implies (function_of_name(names@[i as int]@) == Some(g)
                    <==> names@[i as int]@ == function_name(g)) by {
                    lemma_names_match(names@[i as int]@, g);
                }
                assert(functions_view(functions@) =~= defined_functions(next));
            }
            i = i + 1;
        }
        proof {
            assert(names@.take(names@.len() as int) =~= names@);
        }
        functions
    }
}

} // verus!
