//! The dashboard page.

use vstd::prelude::*;

verus! {

/// A self-contained page that lists the metrics and plots the selected one.
pub const PAGE: &'static str = "<!DOCTYPE html>
<html lang='en'>
<head>
<meta charset='utf-8'>
<title>rustmetrics</title>
<style>
body { margin: 0; font: 14px sans-serif; display: flex; height: 100vh; color: #222; }
nav { width: 260px; overflow: auto; border-right: 1px solid #ddd; padding: 12px; }
nav a { display: block; padding: 4px 0; color: #0366d6; cursor: pointer; }
main { flex: 1; padding: 12px; }
svg { width: 100%; height: 70vh; border: 1px solid #ddd; }
small { color: #777; }
</style>
</head>
<body>
<nav><h3>rustmetrics</h3><div id='metrics'></div></nav>
<main><h3 id='title'>Select a metric</h3><svg id='plot' viewBox='0 0 1000 400' preserveAspectRatio='none'></svg><div id='legend'></div></main>
<script>
const colors = ['#1f77b4', '#ff7f0e', '#2ca02c', '#d62728', '#9467bd', '#8c564b'];
let current = null;
async function list() {
  const data = await (await fetch('/api/metrics')).json();
  const box = document.getElementById('metrics');
  box.textContent = '';
  for (const m of data.metrics) {
    const a = document.createElement('a');
    a.textContent = m.name + ' (' + m.series + ')';
    a.title = m.kind + ' ' + m.help;
    a.onclick = () => { current = m.name; draw(); };
    box.appendChild(a);
  }
}
async function draw() {
  if (!current) return;
  const data = await (await fetch('/api/query?metric=' + encodeURIComponent(current))).json();
  document.getElementById('title').textContent = current;
  const svg = document.getElementById('plot');
  const legend = document.getElementById('legend');
  svg.textContent = '';
  legend.textContent = '';
  let low = Infinity, high = -Infinity;
  for (const s of data.series) for (const p of s.points) if (p[1] !== null) {
    low = Math.min(low, p[1]);
    high = Math.max(high, p[1]);
  }
  const width = Math.max(1, data.to - data.from), height = (high - low) || 1;
  data.series.forEach((s, i) => {
    const line = document.createElementNS('http://www.w3.org/2000/svg', 'polyline');
    line.setAttribute('points', s.points.filter(p => p[1] !== null)
      .map(p => 1000 * (p[0] - data.from) / width + ',' + (390 - 380 * (p[1] - low) / height)).join(' '));
    line.setAttribute('fill', 'none');
    line.setAttribute('stroke', colors[i % colors.length]);
    svg.appendChild(line);
    const row = document.createElement('small');
    row.style.color = colors[i % colors.length];
    row.textContent = JSON.stringify(s.labels) + ' ';
    legend.appendChild(row);
  });
}
list();
setInterval(() => { list(); draw(); }, 5000);
</script>
</body>
</html>
";

} // verus!
