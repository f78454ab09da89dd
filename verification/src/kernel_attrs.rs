//! The decisions of the kernel attribute macros, on the items of an
//! attribute already split into paths, parenthesised contents and values:
//! which build options are accepted, the names of the functions that
//! initialise and run a kernel, how the call that builds a kernel is
//! rewritten, the atomic counter type of a unique id, and the mode and init
//! parameters of the display kernel attribute.
use vstd::prelude::*;

verus! {

/// Whether two strings are the same.
pub fn str_eq(a: &str, b: &str) -> (r: bool)
    ensures
        r == (a@ == b@),
{
    let n = a.unicode_len();
    if n != b.unicode_len() {
        return false;
    }
    let mut i: usize = 0;
    while i < n
        invariant
            n == a@.len(),
            n == b@.len(),
            i <= n,
            forall|j: int| 0 <= j < i ==> a@[j] == b@[j],
        decreases n - i,
    {
        if a.get_char(i) != b.get_char(i) {
            return false;
        }
        i = i + 1;
    }
    assert(a@ =~= b@);
    true
}

/// The build options that a kernel attribute may set.
pub open spec fn allowed_build_option(key: Seq<char>) -> bool {
    ||| key == "enable_debug_info"@
    ||| key == "enable_optimization"@
    ||| key == "async_compile"@
    ||| key == "enable_cache"@
    ||| key == "enable_fast_math"@
    ||| key == "max_registers"@
    ||| key == "time_trace"@
    ||| key == "name"@
    ||| key == "native_include"@
}

/// The keys that a kernel attribute accepts as build options are exactly
/// `enable_debug_info`, `enable_optimization`, `async_compile`,
/// `enable_cache`, `enable_fast_math`, `max_registers`, `time_trace`, `name`
/// and `native_include`: registering any of them succeeds, any other key is
/// refused.
pub proof fn law_build_option_keys(key: Seq<char>)
    ensures
        allowed_build_option(key) <==> set![
            "enable_debug_info"@,
            "enable_optimization"@,
            "async_compile"@,
            "enable_cache"@,
            "enable_fast_math"@,
            "max_registers"@,
            "time_trace"@,
            "name"@,
            "native_include"@,
        ].contains(key),
{
}

/// Whether a key is one of the build options that a kernel attribute may set.
pub fn is_allowed_build_option(key: &str) -> (r: bool)
    ensures
        r == allowed_build_option(key@),
{
    str_eq(key, "enable_debug_info") || str_eq(key, "enable_optimization") || str_eq(key, "async_compile")
        || str_eq(key, "enable_cache") || str_eq(key, "enable_fast_math") || str_eq(key, "max_registers")
        || str_eq(key, "time_trace") || str_eq(key, "name") || str_eq(key, "native_include")
}

/// The build options set by a kernel attribute, each key once, with the
/// source text of its value.
pub struct BuildOptions(pub Vec<(String, String)>);

/// The build options as a map from key to value.
pub open spec fn options_map(o: Seq<(String, String)>) -> Map<Seq<char>, Seq<char>>
    decreases o.len(),
{
    if o.len() == 0 {
        Map::empty()
    } else {
        options_map(o.drop_last()).insert(o.last().0@, o.last().1@)
    }
}

/// Replacing the value of a key that occurs once sets that key in the map.
proof fn lemma_options_update(o: Seq<(String, String)>, i: int, entry: (String, String))
    requires
        0 <= i < o.len(),
        entry.0@ == o[i].0@,
        forall|a: int, b: int| 0 <= a < b < o.len() ==> o[a].0@ != o[b].0@,
    ensures
        options_map(o.update(i, entry)) == options_map(o).insert(entry.0@, entry.1@),
    decreases o.len(),
{
    let t = o.update(i, entry);
    if i == o.len() - 1 {
        assert(t.drop_last() =~= o.drop_last());
        assert(options_map(t) =~= options_map(o).insert(entry.0@, entry.1@));
    } else {
        let d = o.drop_last();
        lemma_options_update(d, i, entry);
        assert(t.drop_last() =~= d.update(i, entry));
        assert(o[i].0@ != o[o.len() - 1].0@);
        assert(options_map(t) =~= options_map(o).insert(entry.0@, entry.1@));
    }
}

impl BuildOptions {
    pub open spec fn view(&self) -> Map<Seq<char>, Seq<char>> {
        options_map(self.0@)
    }

    /// Each key occurs once.
    pub open spec fn wf(&self) -> bool {
        forall|a: int, b: int| 0 <= a < b < self.0@.len() ==> self.0@[a].0@ != self.0@[b].0@
    }

    pub fn new() -> (r: Self)
        ensures
            r.wf(),
            r.view() == Map::<Seq<char>, Seq<char>>::empty(),
    {
        BuildOptions(Vec::new())
    }

    /// Sets a build option, replacing the value that the key had. A key that
    /// is not a build option is refused, with the message
    /// `unsupported build option: ` and the key.
    pub fn register(&mut self, key: String, value: String) -> (r: Result<(), String>)
        requires
            old(self).wf(),
        ensures
            final(self).wf(),
            allowed_build_option(key@) ==> r is Ok && final(self).view() == old(self).view().insert(
                key@,
                value@,
            ),
            !allowed_build_option(key@) ==> (r matches Err(m) && m@ == "unsupported build option: "@ + key@)
                && final(self).view() == old(self).view(),
    {
        if !is_allowed_build_option(key.as_str()) {
            let mut message = String::from_str("unsupported build option: ");
            message.append(key.as_str());
            return Err(message);
        }
        let mut i: usize = 0;
        while i < self.0.len()
            invariant
                i <= self.0@.len(),
                self.0@ == old(self).0@,
                self.wf(),
                allowed_build_option(key@),
                forall|j: int| 0 <= j < i ==> self.0@[j].0@ != key@,
            decreases self.0@.len() - i,
        {
            if str_eq(self.0[i].0.as_str(), key.as_str()) {
                proof {
                    lemma_options_update(self.0@, i as int, (key, value));
                }
                self.0.set(i, (key, value));
                return Ok(());
            }
            i = i + 1;
        }
        self.0.push((key, value));
        assert(self.0@.drop_last() =~= old(self).0@);
        Ok(())
    }
}

/// The `run` item of a kernel attribute: the visibility of the run function,
/// and its name where one is given.
pub struct Run {
    pub name: Option<String>,
    pub vis: String,
}

/// What a kernel attribute asks for.
pub struct Attributes {
    pub init_vis: String,
    pub init_name: Option<String>,
    pub run: Option<Run>,
    pub build_options: BuildOptions,
}

/// One item of a kernel attribute: its path, the contents of the parentheses
/// that follow it, and the value after `=`, each as source text.
pub struct MetaItem {
    pub path: Vec<String>,
    pub paren: Option<String>,
    pub value: Option<String>,
}

/// The path is the single identifier `name`.
pub open spec fn is_ident(path: Seq<String>, name: Seq<char>) -> bool {
    path.len() == 1 && path[0]@ == name
}

/// The item is a build option: neither `init` nor `run`.
pub open spec fn is_option_item(m: MetaItem) -> bool {
    !is_ident(m.path@, "init"@) && !is_ident(m.path@, "run"@)
}

/// Why a build option item is refused, if it is: its path is not one
/// identifier, it has no value, or its key is not a build option.
pub open spec fn option_error(m: MetaItem) -> Option<Seq<char>> {
    if m.path@.len() != 1 {
        Some("expected identifier"@)
    } else if m.value is None {
        Some("expected `=`"@)
    } else if !allowed_build_option(m.path@[0]@) {
        Some("unsupported build option: "@ + m.path@[0]@)
    } else {
        None
    }
}

/// The index of the first item that is refused, if any.
pub open spec fn first_error(items: Seq<MetaItem>, from: int) -> Option<int>
    decreases items.len() - from,
{
    if from < 0 || from >= items.len() {
        None
    } else if is_option_item(items[from]) && option_error(items[from]) is Some {
        Some(from)
    } else {
        first_error(items, from + 1)
    }
}

/// The visibility of the init function: the parenthesised contents of the
/// last `init` item that has them, else none.
pub open spec fn init_vis_of(items: Seq<MetaItem>) -> Seq<char>
    decreases items.len(),
{
    if items.len() == 0 {
        Seq::empty()
    } else if is_ident(items.last().path@, "init"@) && items.last().paren is Some {
        items.last().paren->0@
    } else {
        init_vis_of(items.drop_last())
    }
}

/// The name of the init function: the value of the last `init` item that has
/// one, if any.
pub open spec fn init_name_of(items: Seq<MetaItem>) -> Option<Seq<char>>
    decreases items.len(),
{
    if items.len() == 0 {
        None
    } else if is_ident(items.last().path@, "init"@) && items.last().value is Some {
        Some(items.last().value->0@)
    } else {
        init_name_of(items.drop_last())
    }
}

/// The last `run` item, if any.
pub open spec fn run_of(items: Seq<MetaItem>) -> Option<MetaItem>
    decreases items.len(),
{
    if items.len() == 0 {
        None
    } else if is_ident(items.last().path@, "run"@) {
        Some(items.last())
    } else {
        run_of(items.drop_last())
    }
}

/// The build options that the items set, a later one for a key winning.
pub open spec fn options_of(items: Seq<MetaItem>) -> Map<Seq<char>, Seq<char>>
    decreases items.len(),
{
    if items.len() == 0 {
        Map::empty()
    } else if is_option_item(items.last()) {
        options_of(items.drop_last()).insert(items.last().path@[0]@, items.last().value->0@)
    } else {
        options_of(items.drop_last())
    }
}

proof fn lemma_first_error_none(items: Seq<MetaItem>, from: int)
    requires
        0 <= from <= items.len(),
        first_error(items, from) is None,
    ensures
        forall|j: int| from <= j < items.len() ==> !(is_option_item(items[j]) && option_error(items[j]) is Some),
    decreases items.len() - from,
{
    if from < items.len() {
        lemma_first_error_none(items, from + 1);
    }
}

proof fn lemma_first_error_skip(items: Seq<MetaItem>, from: int)
    requires
        0 <= from < items.len(),
        !(is_option_item(items[from]) && option_error(items[from]) is Some),
    ensures
        first_error(items, from) == first_error(items, from + 1),
{
}

/// Reads the items of a kernel attribute in order. `init` sets the
/// visibility (from its parentheses) and the name (from its value) of the
/// init function; `run` asks for a run function, with the visibility and
/// name it gives; every other item sets a build option. The first item that
/// is refused gives the error.
pub fn parse_attrs(items: &Vec<MetaItem>) -> (r: Result<Attributes, String>)
    ensures
        match first_error(items@, 0) {
            Some(i) => r matches Err(m) && Some(m@) == option_error(items@[i]),
            None => r matches Ok(a) && {
                &&& a.init_vis@ == init_vis_of(items@)
                &&& match init_name_of(items@) {
                    Some(n) => a.init_name matches Some(s) && s@ == n,
                    None => a.init_name is None,
                }
                &&& match run_of(items@) {
                    Some(m) => a.run matches Some(run) && run.vis@ == (match m.paren {
                        Some(p) => p@,
                        None => Seq::<char>::empty(),
                    }) && match m.value {
                        Some(v) => run.name matches Some(n) && n@ == v@,
                        None => run.name is None,
                    },
                    None => a.run is None,
                }
                &&& a.build_options.view() == options_of(items@)
            },
        },
{
    let mut init_vis = String::new();
    let mut init_name: Option<String> = None;
    let mut run: Option<Run> = None;
    let mut build_options = BuildOptions::new();
    let mut i: usize = 0;
    while i < items.len()
        invariant
            i <= items@.len(),
            first_error(items@, 0) == first_error(items@, i as int),
            init_vis@ == init_vis_of(items@.take(i as int)),
            match init_name_of(items@.take(i as int)) {
                Some(n) => init_name matches Some(s) && s@ == n,
                None => init_name is None,
            },
            match run_of(items@.take(i as int)) {
                Some(m) => run matches Some(rr) && rr.vis@ == (match m.paren {
                    Some(p) => p@,
                    None => Seq::<char>::empty(),
                }) && match m.value {
                    Some(v) => rr.name matches Some(n) && n@ == v@,
                    None => rr.name is None,
                },
                None => run is None,
            },
            build_options.view() == options_of(items@.take(i as int)),
            build_options.wf(),
        decreases items@.len() - i,
    {
        let item = &items[i];
        let ghost t = items@.take(i + 1);
        proof {
            assert(t.drop_last() =~= items@.take(i as int));
            assert(t.last() == items@[i as int]);
        }
        let single = item.path.len() == 1;
        proof {
            reveal_strlit("init");
            reveal_strlit("run");
        }
        if single && str_eq(item.path[0].as_str(), "init") {
            match &item.paren {
                Some(p) => {
                    init_vis = p.clone();
                },
                None => {},
            }
            match &item.value {
                Some(v) => {
                    init_name = Some(v.clone());
                },
                None => {},
            }
            proof {
                lemma_first_error_skip(items@, i as int);
            }
        } else if single && str_eq(item.path[0].as_str(), "run") {
            let vis = match &item.paren {
                Some(p) => p.clone(),
                None => String::new(),
            };
            let name = match &item.value {
                Some(v) => Some(v.clone()),
                None => None,
            };
            run = Some(Run { name, vis });
            proof {
                lemma_first_error_skip(items@, i as int);
                assert(is_ident(t.last().path@, "run"@));
                assert(run_of(t) == Some(items@[i as int]));
                assert(run matches Some(rr) && rr.vis@ == (match item.paren {
                    Some(p) => p@,
                    None => Seq::<char>::empty(),
                }));
                assert(match item.value {
                    Some(v) => run->0.name matches Some(n) && n@ == v@,
                    None => run->0.name is None,
                });
            }
        } else {
            if !single {
                return Err(String::from_str("expected identifier"));
            }
            match &item.value {
                None => {
                    return Err(String::from_str("expected `=`"));
                },
                Some(v) => {
                    let key = item.path[0].clone();
                    match build_options.register(key, v.clone()) {
                        Err(m) => {
                            return Err(m);
                        },
                        Ok(()) => {},
                    }
                },
            }
            proof {
                lemma_first_error_skip(items@, i as int);
            }
        }
        proof {
            if !is_ident(t.last().path@, "run"@) {
                assert(run_of(t) == run_of(items@.take(i as int)));
            }
            assert(match run_of(t) {
                Some(m) => run matches Some(rr) && rr.vis@ == (match m.paren {
                    Some(p) => p@,
                    None => Seq::<char>::empty(),
                }) && match m.value {
                    Some(v) => rr.name matches Some(n) && n@ == v@,
                    None => rr.name is None,
                },
                None => run is None,
            });
        }
        i = i + 1;
    }
    proof {
        assert(items@.take(items@.len() as int) =~= items@);
    }
    Ok(Attributes { init_vis, init_name, run, build_options })
}

/// The name of the function that initialises a kernel: the name given, else
/// `init_` and the kernel's name.
pub fn init_fn_name(kernel_name: &str, init_name: Option<String>) -> (r: String)
    ensures
        r@ == (match init_name {
            Some(n) => n@,
            None => "init_"@ + kernel_name@,
        }),
{
    match init_name {
        Some(n) => n,
        None => {
            let mut s = String::from_str("init_");
            s.append(kernel_name);
            s
        },
    }
}

/// The name of the function that runs a kernel: the name given, else the
/// kernel's name without a trailing `_kernel`, else `run_` and the kernel's
/// name.
pub fn run_fn_name(kernel_name: &str, run_name: Option<String>) -> (r: String)
    ensures
        r@ == (match run_name {
            Some(n) => n@,
            None => if kernel_name@.len() >= 7 && kernel_name@.subrange(
                kernel_name@.len() - 7,
                kernel_name@.len() as int,
            ) == "_kernel"@ {
                kernel_name@.subrange(0, kernel_name@.len() - 7)
            } else {
                "run_"@ + kernel_name@
            },
        }),
{
    match run_name {
        Some(n) => n,
        None => {
            let n = kernel_name.unicode_len();
            if n >= 7 && str_eq(kernel_name.substring_char(n - 7, n), "_kernel") {
                String::from_str(kernel_name.substring_char(0, n - 7))
            } else {
                let mut s = String::from_str("run_");
                s.append(kernel_name);
                s
            }
        },
    }
}

/// Why a kernel function is refused.
#[derive(Debug, Clone, Copy, PartialEq, Eq, Structural)]
pub enum KernelError {
    /// The function does not return a `Kernel`.
    NotKernel,
    /// The kernel is built by a constructor call that cannot take build
    /// options: options are given, or the constructor is not `build` with a
    /// domain and a closure, or `build_named`; or the call has no arguments.
    BadBuildCall,
    /// The init function of a display kernel takes `self`.
    SelfParam,
}

/// The return type of a kernel function must be `Kernel` with one or two
/// type arguments: the signature, and the arguments of the domain (which
/// default to `()`). The result says whether the second is given.
pub fn check_kernel_return(last_ident: &str, type_args: usize) -> (r: Result<bool, KernelError>)
    ensures
        r == (if last_ident@ == "Kernel"@ && (type_args == 1 || type_args == 2) {
            Ok::<bool, KernelError>(type_args == 2)
        } else {
            Err::<bool, KernelError>(KernelError::NotKernel)
        }),
{
    if !str_eq(last_ident, "Kernel") || (type_args != 1 && type_args != 2) {
        return Err(KernelError::NotKernel);
    }
    Ok(type_args == 2)
}

/// How the last statement of a kernel function, the expression that builds
/// the kernel, is rewritten.
#[derive(Debug, Clone, Copy, PartialEq, Eq, Structural)]
pub enum BuildRewrite {
    /// The statement is not a call of a `Kernel` constructor: it stays as it is.
    Untouched,
    /// The constructor call stays: the kernel's type arguments are added
    /// where `add_type_args`, the argument at `closure` is tracked, and the
    /// kernel is named after the function.
    Named { add_type_args: bool, closure: usize },
    /// As `Named`, and the call becomes `build_with_options`, with the build
    /// options as a new first argument.
    WithOptions { add_type_args: bool, closure: usize },
}

/// The names of the constructors of a kernel.
pub open spec fn build_method(m: Seq<char>) -> bool {
    m == "build"@ || m == "build_named"@ || m == "build_with_options"@
}

/// How a kernel's build call is rewritten, for a last statement that calls
/// the path `segments` (without a leading `::` or a qualified self) with
/// `args` arguments; `type_args_given` says whether the first segment has
/// type arguments, `has_options` whether build options are set.
pub open spec fn spec_build_rewrite(
    segments: Seq<Seq<char>>,
    type_args_given: bool,
    args: nat,
    has_options: bool,
) -> Result<BuildRewrite, KernelError> {
    if segments.len() == 2 && segments[0] == "Kernel"@ && build_method(segments[1]) {
        if args == 0 {
            Err(KernelError::BadBuildCall)
        } else if has_options || segments[1] != "build_named"@ {
            if segments[1] == "build"@ && args == 2 {
                Ok(BuildRewrite::WithOptions { add_type_args: !type_args_given, closure: 1 })
            } else {
                Err(KernelError::BadBuildCall)
            }
        } else {
            Ok(BuildRewrite::Named { add_type_args: !type_args_given, closure: (args - 1) as usize })
        }
    } else {
        Ok(BuildRewrite::Untouched)
    }
}

/// A rewritten build call gets the kernel's type arguments exactly when the
/// user wrote none on its first segment, so type arguments that the user
/// wrote are always kept; the closure tracked is the last argument; and only
/// a call of `Kernel::build`, `Kernel::build_named` or
/// `Kernel::build_with_options` is rewritten at all.
pub proof fn law_build_rewrite_keeps_type_args(
    segments: Seq<Seq<char>>,
    type_args_given: bool,
    args: nat,
    has_options: bool,
)
    requires
        args <= usize::MAX,
    ensures
        match spec_build_rewrite(segments, type_args_given, args, has_options) {
            Ok(BuildRewrite::Named { add_type_args, closure }) => {
                &&& add_type_args == !type_args_given
                &&& closure == args - 1
                &&& segments == seq!["Kernel"@, "build_named"@]
                &&& !has_options
            },
            Ok(BuildRewrite::WithOptions { add_type_args, closure }) => {
                &&& add_type_args == !type_args_given
                &&& closure == args - 1
                &&& args == 2
                &&& segments == seq!["Kernel"@, "build"@]
            },
            Ok(BuildRewrite::Untouched) => !(segments.len() == 2 && segments[0] == "Kernel"@ && (segments[1]
                == "build"@ || segments[1] == "build_named"@ || segments[1] == "build_with_options"@)),
            Err(_) => segments.len() == 2 && segments[0] == "Kernel"@,
        },
{
    if segments.len() == 2 {
        assert(segments =~= seq![segments[0], segments[1]]);
    }
}

/// Decides how the build call that ends a kernel function is rewritten: the
/// closure, the last argument, is tracked; a `build` call gets the build
/// options (which name the kernel) and becomes `build_with_options`; a
/// `build_named` call without options is kept.
pub fn build_rewrite(
    segments: &Vec<String>,
    type_args_given: bool,
    args: usize,
    has_options: bool,
) -> (r: Result<BuildRewrite, KernelError>)
    ensures
        r == spec_build_rewrite(
            segments@.map_values(|s: String| s@),
            type_args_given,
            args as nat,
            has_options,
        ),
{
    let ghost names = segments@.map_values(|s: String| s@);
    if segments.len() != 2 {
        return Ok(BuildRewrite::Untouched);
    }
    let ty = segments[0].as_str();
    let method = segments[1].as_str();
    assert(names[0] == ty@ && names[1] == method@);
    let is_method = str_eq(method, "build") || str_eq(method, "build_named") || str_eq(
        method,
        "build_with_options",
    );
    if !str_eq(ty, "Kernel") || !is_method {
        return Ok(BuildRewrite::Untouched);
    }
    if args == 0 {
        return Err(KernelError::BadBuildCall);
    }
    if has_options || !str_eq(method, "build_named") {
        if str_eq(method, "build") && args == 2 {
            Ok(BuildRewrite::WithOptions { add_type_args: !type_args_given, closure: 1 })
        } else {
            Err(KernelError::BadBuildCall)
        }
    } else {
        Ok(BuildRewrite::Named { add_type_args: !type_args_given, closure: args - 1 })
    }
}

/// The unsigned integer types that a unique id may count with.
pub open spec fn counter_type(name: Seq<char>) -> bool {
    name == "u8"@ || name == "u16"@ || name == "u32"@ || name == "u64"@ || name == "usize"@
}

/// The atomic type that counts the ids of a struct whose one field has the
/// given unsigned type: `AtomicU` followed by the type's name without its
/// first letter; `None` for any other type.
pub fn atomic_name(field_type: &str) -> (r: Option<String>)
    ensures
        counter_type(field_type@) ==> (r matches Some(s) && s@ == "AtomicU"@ + field_type@.subrange(
            1,
            field_type@.len() as int,
        )),
        !counter_type(field_type@) ==> r is None,
{
    if !(str_eq(field_type, "u8") || str_eq(field_type, "u16") || str_eq(field_type, "u32") || str_eq(
        field_type,
        "u64",
    ) || str_eq(field_type, "usize")) {
        return None;
    }
    proof {
        reveal_strlit("u8");
        reveal_strlit("u16");
        reveal_strlit("u32");
        reveal_strlit("u64");
        reveal_strlit("usize");
    }
    let n = field_type.unicode_len();
    let mut s = String::from_str("AtomicU");
    s.append(field_type.substring_char(1, n));
    Some(s)
}

/// A parameter of the init function of a display kernel, as far as the
/// attribute reads it.
#[derive(Debug, Clone, PartialEq, Eq)]
pub enum InitParam {
    /// `self`, in any form.
    Receiver,
    /// A parameter bound to a plain name.
    Named(String),
    /// A parameter bound to another pattern.
    Pattern,
}

/// The first parameter, from `from` on, that is `self` or is named `device`.
pub open spec fn first_device_or_self(params: Seq<InitParam>, from: int) -> Option<int>
    decreases params.len() - from,
{
    if from < 0 || from >= params.len() {
        None
    } else if params[from] is Receiver || (params[from] matches InitParam::Named(n) && n@ == "device"@) {
        Some(from)
    } else {
        first_device_or_self(params, from + 1)
    }
}

/// Whether the init function of a display kernel still needs the device and
/// the build options as parameters: yes unless one of its parameters is named
/// `device`. The parameters are read in order, and a `self` met before such a
/// parameter is refused.
pub fn init_needs_device(params: &Vec<InitParam>) -> (r: Result<bool, KernelError>)
    ensures
        r == (match first_device_or_self(params@, 0) {
            None => Ok::<bool, KernelError>(true),
            Some(i) => if params@[i] is Receiver {
                Err(KernelError::SelfParam)
            } else {
                Ok(false)
            },
        }),
{
    let mut i: usize = 0;
    while i < params.len()
        invariant
            i <= params@.len(),
            first_device_or_self(params@, 0) == first_device_or_self(params@, i as int),
        decreases params@.len() - i,
    {
        match &params[i] {
            InitParam::Receiver => {
                return Err(KernelError::SelfParam);
            },
            InitParam::Named(n) => {
                if str_eq(n.as_str(), "device") {
                    return Ok(false);
                }
            },
            InitParam::Pattern => {},
        }
        i = i + 1;
    }
    Ok(true)
}

/// The kind of item that a derive is asked for.
#[derive(Debug, Clone, Copy, PartialEq, Eq, Structural)]
pub enum ItemKind {
    Struct,
    Enum,
    Union,
}

/// How the fields of a struct are written.
#[derive(Debug, Clone, Copy, PartialEq, Eq, Structural)]
pub enum FieldsKind {
    Named,
    Unnamed,
    Unit,
}

/// Why a unique id cannot be derived for an item.
#[derive(Debug, Clone, Copy, PartialEq, Eq, Structural)]
pub enum UniqueIdError {
    /// The item is an enum or a union.
    NotStruct,
    /// The struct has no fields at all.
    UnitStruct,
    /// The struct has other than one field.
    FieldCount,
    /// The field's type is not an unsigned integer type.
    FieldType,
}

/// The atomic counter type of a unique id for an item of kind `kind`, whose
/// fields are written as `fields` and have the types `types` (each the text
/// of a path type, `None` for a type of another form): the item must be a
/// struct with exactly one field, of an unsigned integer type.
pub open spec fn spec_unique_id(
    kind: ItemKind,
    fields: FieldsKind,
    types: Seq<Option<Seq<char>>>,
) -> Result<Seq<char>, UniqueIdError> {
    if kind != ItemKind::Struct {
        Err(UniqueIdError::NotStruct)
    } else if fields == FieldsKind::Unit {
        Err(UniqueIdError::UnitStruct)
    } else if types.len() != 1 {
        Err(UniqueIdError::FieldCount)
    } else {
        match types[0] {
            Some(n) => if counter_type(n) {
                Ok("AtomicU"@ + n.subrange(1, n.len() as int))
            } else {
                Err(UniqueIdError::FieldType)
            },
            None => Err(UniqueIdError::FieldType),
        }
    }
}

/// The texts of some field types.
pub open spec fn type_texts(types: Seq<Option<String>>) -> Seq<Option<Seq<char>>> {
    types.map_values(
        |t: Option<String>|
            match t {
                Some(s) => Some(s@),
                None => None,
            },
    )
}

/// Decides whether a unique id can be derived for an item from its shape,
/// and gives the atomic type that counts its ids.
pub fn unique_id_counter(kind: ItemKind, fields: FieldsKind, types: &Vec<Option<String>>) -> (r: Result<
    String,
    UniqueIdError,
>)
    ensures
        (match spec_unique_id(kind, fields, type_texts(types@)) {
            Ok(n) => r matches Ok(s) && s@ == n,
            Err(e) => r == Err::<String, UniqueIdError>(e),
        }),
{
    match kind {
        ItemKind::Struct => {},
        _ => {
            return Err(UniqueIdError::NotStruct);
        },
    }
    match fields {
        FieldsKind::Unit => {
            return Err(UniqueIdError::UnitStruct);
        },
        _ => {},
    }
    if types.len() != 1 {
        return Err(UniqueIdError::FieldCount);
    }
    match &types[0] {
        Some(name) => match atomic_name(name.as_str()) {
            Some(a) => Ok(a),
            None => Err(UniqueIdError::FieldType),
        },
        None => Err(UniqueIdError::FieldType),
    }
}

/// Whether the display kernel attribute registers the kernel's init function
/// to run at startup: yes for no argument, no for `noinit`; any other
/// argument is refused.
pub fn display_kernel_init(attr: &str) -> (r: Option<bool>)
    ensures
        r == (if attr@.len() == 0 {
            Some(true)
        } else if attr@ == "noinit"@ {
            Some(false)
        } else {
            None::<bool>
        }),
{
    if attr.unicode_len() == 0 {
        Some(true)
    } else if str_eq(attr, "noinit") {
        Some(false)
    } else {
        None
    }
}

} // verus!
