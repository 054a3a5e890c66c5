use rsonpath_memmem::runner::{
    resolve_engine, resolve_output, EngineArg, ResolvedEngine, ResolvedInput, ResolvedInputKind, ResolvedOutput,
    ResultArg,
};

#[test]
fn output_follows_result_argument() {
    assert_eq!(resolve_output(ResultArg::Bytes), ResolvedOutput::Index);
    assert_eq!(resolve_output(ResultArg::Count), ResolvedOutput::Count);
}

#[test]
fn engine_follows_engine_argument() {
    assert_eq!(resolve_engine(EngineArg::Main), ResolvedEngine::Main);
    assert_eq!(resolve_engine(EngineArg::Recursive), ResolvedEngine::Recursive);
}

#[test]
fn failed_map_falls_back_once() {
    let input = ResolvedInput::new(7u32, ResolvedInputKind::Mmap, Some(ResolvedInputKind::Buffered));
    let next = input.fall_back().ok().unwrap();
    assert_eq!(next.kind(), ResolvedInputKind::Buffered);
    assert_eq!(next.fallback_kind(), None);
    assert_eq!(*next.file(), 7);
    assert_eq!(next.fall_back().err(), Some(7));
}
